//! The entity store and the tick-scoped systems: a typed registry of
//! components indexed by opaque integer handles, the rigid-body integrator,
//! the bullet/asteroid collision resolver with its deferred command buffer,
//! and the player action entry points.
//!
//! During the collision pass nothing mutates the live entity set: every
//! creation and deletion is appended to `pending` and applied only by
//! `commit`, so iteration over entities stays stable for the whole pass.

use crate::body::{speed2i, RigidBody, ANG_LIM, OMEGA_LIM, POS_LIM, SPEED2_MAX, VEL_LIM};
use crate::geometry::{in_pts, out_of_range_at, recentre_out_of_range, recentred, Polygon, V2};
use crate::shoelace::{cross, csum, wxsum, wysum};
use crate::num::{clamp_i64, clamp_spec, div_trunc, lemma_mul_bounds, tdiv, MILLI};
use crate::trig::{cos_milli, sin_cos_milli, sin_milli};
use vstd::prelude::*;

verus! {

/// Role tag: an entity carries at most one.
#[derive(Clone, Copy, Debug, PartialEq, Eq, Structural)]
pub enum Role {
    Player { score: u32, health: u32 },
    Asteroid,
    Bullet,
}

/// Display attribute (rendering itself is outside this crate).
#[derive(Clone, Copy, Debug, PartialEq, Eq, Structural)]
pub enum Tint {
    White,
    Blue,
    Red,
}

/// Axis-aligned display rectangle, in milli-units.
#[derive(Clone, Copy, Debug, PartialEq, Eq, Structural)]
pub struct Rectangle {
    pub w: i64,
    pub h: i64,
}

/// A player movement command.
#[derive(Clone, Copy, Debug, PartialEq, Eq, Structural)]
pub enum Command {
    RotLeft,
    RotRight,
    Fwd,
    Bwd,
}

/// A deferred mutation, applied only at the commit point.
pub enum Deferred {
    Delete(usize),
    SpawnAsteroid(RigidBody, Polygon),
}

/// The entity store: one homogeneous column per component type, an entity
/// being an index valid in every column, plus the deferred command buffer.
pub struct World {
    pub alive: Vec<bool>,
    pub bodies: Vec<RigidBody>,
    pub roles: Vec<Role>,
    pub polys: Vec<Option<Polygon>>,
    pub rects: Vec<Option<Rectangle>>,
    pub tints: Vec<Tint>,
    pub pending: Vec<Deferred>,
}

/// A mathematical snapshot of the store's columns.
pub struct WorldSnap {
    pub alive: Seq<bool>,
    pub bodies: Seq<RigidBody>,
    pub roles: Seq<Role>,
    pub polys: Seq<Option<Polygon>>,
    pub rects: Seq<Option<Rectangle>>,
    pub tints: Seq<Tint>,
}

impl WorldSnap {
    pub open spec fn wf(&self) -> bool {
        &&& self.bodies.len() == self.alive.len()
        &&& self.roles.len() == self.alive.len()
        &&& self.polys.len() == self.alive.len()
        &&& self.rects.len() == self.alive.len()
        &&& self.tints.len() == self.alive.len()
        &&& forall|i: int| 0 <= i < self.alive.len() ==> (#[trigger] self.bodies[i]).wf()
        &&& forall|i: int|
            0 <= i < self.alive.len() && self.polys[i] is Some ==> (#[trigger] self.polys[i])->0.wf()
    }
}

impl World {
    /// Snapshot of the columns.
    pub open spec fn snap(&self) -> WorldSnap {
        WorldSnap {
            alive: self.alive@,
            bodies: self.bodies@,
            roles: self.roles@,
            polys: self.polys@,
            rects: self.rects@,
            tints: self.tints@,
        }
    }

    /// Well-formed store: columns of equal length holding well-formed
    /// components, and a command buffer whose deletions point into the store
    /// and whose spawns carry well-formed components.
    pub open spec fn wf(&self) -> bool {
        &&& self.snap().wf()
        &&& forall|i: int|
            0 <= i < self.pending@.len() ==> match #[trigger] self.pending@[i] {
                Deferred::Delete(e) => e < self.alive@.len(),
                Deferred::SpawnAsteroid(rb, p) => rb.wf() && p.wf(),
            }
    }

    /// An empty store.
    pub fn new() -> (w: World)
        ensures
            w.wf(),
            w.alive@.len() == 0,
            w.pending@.len() == 0,
    {
        World {
            alive: Vec::new(),
            bodies: Vec::new(),
            roles: Vec::new(),
            polys: Vec::new(),
            rects: Vec::new(),
            tints: Vec::new(),
            pending: Vec::new(),
        }
    }

    /// Number of entity slots.
    pub fn len(&self) -> (n: usize)
        ensures
            n == self.alive@.len(),
    {
        self.alive.len()
    }

    /// Appends one entity row; used by the spawn operations.
    fn push_entity(
        &mut self,
        body: RigidBody,
        role: Role,
        poly: Option<Polygon>,
        rect: Option<Rectangle>,
        tint: Tint,
    ) -> (id: usize)
        requires
            old(self).wf(),
            body.wf(),
            poly is Some ==> poly->0.wf(),
        ensures
            final (self).wf(),
            id == old(self).alive@.len(),
            final (self).alive@ == old(self).alive@.push(true),
            final (self).bodies@ == old(self).bodies@.push(body),
            final (self).roles@ == old(self).roles@.push(role),
            final (self).polys@ == old(self).polys@.push(poly),
            final (self).rects@ == old(self).rects@.push(rect),
            final (self).tints@ == old(self).tints@.push(tint),
            final (self).pending@ == old(self).pending@,
    {
        let id = self.alive.len();
        self.alive.push(true);
        self.bodies.push(body);
        self.roles.push(role);
        self.polys.push(poly);
        self.rects.push(rect);
        self.tints.push(tint);
        id
    }

    /// Spawns the player: at the field's centre at rest, with the fixed
    /// ship polygon (milli-unit inputs `(0, 1.5), (5, 0), (0, -1.5),
    /// (1.25, 0)` recentred by `Polygon::new`), score 0 and health 100.
    /// The ship polygon always constructs: its closed shoelace sums are
    /// evaluated below, nonzero and with a centroid well inside range.
    pub fn spawn_player(&mut self)
        requires
            old(self).wf(),
        ensures
            final (self).wf(),
            final (self).alive@.len() == old(self).alive@.len() + 1,
            final (self).pending@ == old(self).pending@,
            ({
                let i = old(self).alive@.len() as int;
                &&& final (self).alive@[i]
                &&& final (self).roles@[i] == (Role::Player { score: 0u32, health: 100u32 })
                &&& final (self).tints@[i] == Tint::Blue
                &&& final (self).bodies@[i] == (RigidBody {
                    x: V2 { x: 50_000, y: 50_000 },
                    v: V2 { x: 0, y: 0 },
                    phi: 0,
                    omega: 0,
                })
                &&& final (self).polys@[i] is Some
                &&& final (self).polys@[i]->0.wf()
                &&& final (self).polys@[i]->0.verts() == recentred(
                    in_pts(seq![0i64, 5000i64, 0i64, 1250i64], seq![1500i64, 0i64, -1500i64, 0i64]),
                )
                &&& forall|j: int| 0 <= j < i ==> unchanged_at(old(self).snap(), final (self).snap(), j)
            }),
    {
        let xs: Vec<i64> = vec![0, 5000, 0, 1250];
        let ys: Vec<i64> = vec![1500, 0, -1500, 0];
        proof {
            assert(xs@ =~= seq![0i64, 5000i64, 0i64, 1250i64]);
            assert(ys@ =~= seq![1500i64, 0i64, -1500i64, 0i64]);
        }
        let poly = Polygon::new(xs, ys);
        proof {
            lemma_ship_polygon_sums();
            let sp = in_pts(xs@, ys@);
            let sc = sp.push(sp[0]);
            assert(csum(sc) == -11_250_000);
            assert(3 * -csum(sc) == 33_750_000);
            assert(0 * 33_750_000int == 0) by (nonlinear_arith);
            assert(2085 * 33_750_000int == 70_368_750_000int) by (nonlinear_arith);
            crate::num::lemma_div_range(70_312_500_000, 33_750_000, 2085);
            crate::num::lemma_div_range(0, 33_750_000, 0);
            let cx = crate::geometry::centroid_x_floor(sp);
            let cy = crate::geometry::centroid_y_floor(sp);
            assert(0 <= cx <= 2085);
            assert(cy == 0);
            assert forall|k: int| 0 <= k < sp.len() implies !(#[trigger] out_of_range_at(
                sp,
                k,
            )) by {
                assert(sp[k] == (xs@[k] as int, ys@[k] as int));
                assert(0 <= sp[k].0 <= 5000 && -1500 <= sp[k].1 <= 1500);
            }
            assert(!recentre_out_of_range(sp));
            assert(poly is Some);
        }
        let body = RigidBody { x: V2 { x: 50_000, y: 50_000 }, v: V2 { x: 0, y: 0 }, phi: 0, omega: 0 };
        self.push_entity(body, Role::Player { score: 0, health: 100 }, poly, Option::None, Tint::Blue);
    }

    /// Spawns an asteroid with uniformly drawn pose and velocity (position in
    /// `[0, 100)` units per axis, velocity in `[-5, 5)` units per axis,
    /// orientation in `[0, 2 pi)`, spin in `[-1, 1)`) and a random polygon.
    /// A degenerate polygon draw spawns nothing.
    pub fn spawn_asteroid(&mut self)
        requires
            old(self).wf(),
        ensures
            final (self).wf(),
            final (self).pending@ == old(self).pending@,
            final (self).alive@.len() == old(self).alive@.len() || final (self).alive@.len() == old(
                self,
            ).alive@.len() + 1,
            final (self).alive@.len() == old(self).alive@.len() ==> *final (self) == *old(self),
            final (self).alive@.len() == old(self).alive@.len() + 1 ==> ({
                let i = old(self).alive@.len() as int;
                &&& final (self).alive@[i]
                &&& final (self).roles@[i] == Role::Asteroid
                &&& final (self).tints@[i] == Tint::White
                &&& final (self).polys@[i] is Some && final (self).polys@[i]->0.wf() && final (
                self).polys@[i]->0.den == MILLI
                &&& crate::geometry::from_random_draws(final (self).polys@[i]->0)
                &&& ({
                    let b = final (self).bodies@[i];
                    &&& 0 <= b.x.x < 100_000 && 0 <= b.x.y < 100_000
                    &&& -5000 <= b.v.x < 5000 && -5000 <= b.v.y < 5000
                    &&& 0 <= b.phi < 6283
                    &&& -1000 <= b.omega < 1000
                })
                &&& forall|j: int| 0 <= j < i ==> unchanged_at(old(self).snap(), final (self).snap(), j)
            }),
    {
        let px = 100 * crate::rng::rand_milli_unit();
        let py = 100 * crate::rng::rand_milli_unit();
        let vx = 10 * crate::rng::rand_milli_unit() - 5000;
        let vy = 10 * crate::rng::rand_milli_unit() - 5000;
        let phi = div_trunc(6283 * (crate::rng::rand_milli_unit() as i128), 1000) as i64;
        let omega = 2 * crate::rng::rand_milli_unit() - 1000;
        let body = RigidBody { x: V2 { x: px, y: py }, v: V2 { x: vx, y: vy }, phi, omega };
        match Polygon::random() {
            Option::Some(p) => {
                self.push_entity(body, Role::Asteroid, Option::Some(p), Option::None, Tint::White);
            },
            Option::None => {},
        }
    }

    /// Applies one movement command to every live player: forward or
    /// backward thrust adds one unit of velocity along the current heading,
    /// the rotation commands turn by a tenth of a radian, and the speed is
    /// then clamped to 10 units by uniform rescaling. Nothing else changes.
    #[verifier::rlimit(100)]
    #[verifier::spinoff_prover]
    pub fn move_player(&mut self, cmd: Command)
        requires
            old(self).wf(),
        ensures
            final (self).wf(),
            final (self).alive@.len() == old(self).alive@.len(),
            final (self).pending@ == old(self).pending@,
            forall|j: int|
                0 <= j < old(self).alive@.len() && !(old(self).alive@[j] && old(self).roles@[j]
                    is Player) ==> unchanged_at(old(self).snap(), final (self).snap(), j),
            forall|j: int|
                0 <= j < old(self).alive@.len() && old(self).alive@[j] && old(self).roles@[j]
                    is Player ==> #[trigger] moved_player(
                    old(self).snap(),
                    final (self).snap(),
                    j,
                    cmd,
                ),
    {
        let n = self.alive.len();
        let mut i: usize = 0;
        let ghost w0 = old(self).snap();
        while i < n
            invariant
                0 <= i <= n,
                n == self.alive@.len(),
                self.wf(),
                w0 == old(self).snap(),
                old(self).wf(),
                self.alive@ == old(self).alive@,
                self.roles@ == old(self).roles@,
                self.polys@ == old(self).polys@,
                self.rects@ == old(self).rects@,
                self.tints@ == old(self).tints@,
                self.pending@ == old(self).pending@,
                self.bodies@.len() == old(self).bodies@.len(),
                forall|j: int|
                    i <= j < n ==> #[trigger] self.bodies@[j] == old(self).bodies@[j],
                forall|j: int|
                    0 <= j < i && !(old(self).alive@[j] && old(self).roles@[j] is Player)
                        ==> #[trigger] self.bodies@[j] == old(self).bodies@[j],
                forall|j: int|
                    0 <= j < i && old(self).alive@[j] && old(self).roles@[j] is Player
                        ==> #[trigger] moved_player(w0, self.snap(), j, cmd),
            decreases n - i,
        {
            let is_player = match self.roles[i] {
                Role::Player { .. } => true,
                _ => false,
            };
            if self.alive[i] && is_player {
                let b = self.bodies[i];
                let (sn, cs) = sin_cos_milli(b.phi);
                let (dvx, dvy, dphi): (i64, i64, i64) = match cmd {
                    Command::Fwd => (cs, sn, 0),
                    Command::Bwd => (-cs, -sn, 0),
                    Command::RotLeft => (0, 0, -100),
                    Command::RotRight => (0, 0, 100),
                };
                let pretv = V2 { x: b.v.x + dvx, y: b.v.y + dvy };
                let mut tv = pretv;
                crate::body::clamp_speed(&mut tv);
                let nphi = clamp_i64(b.phi + dphi, -ANG_LIM, ANG_LIM);
                let nb = RigidBody { x: b.x, v: tv, phi: nphi, omega: b.omega };
                proof {
                    assert(-10_000 <= tv.x <= 10_000 && -10_000 <= tv.y <= 10_000)
                        by (nonlinear_arith)
                        requires
                            (tv.x as int) * (tv.x as int) + (tv.y as int) * (tv.y as int)
                                <= 100_000_000,
                    ;
                }
                let ghost presnap = self.snap();
                self.bodies.set(i, nb);
                proof {
                    let tvx: int = match cmd {
                        Command::Fwd => b.v.x + cos_milli(b.phi as int),
                        Command::Bwd => b.v.x - cos_milli(b.phi as int),
                        _ => b.v.x as int,
                    };
                    let tvy: int = match cmd {
                        Command::Fwd => b.v.y + sin_milli(b.phi as int),
                        Command::Bwd => b.v.y - sin_milli(b.phi as int),
                        _ => b.v.y as int,
                    };
                    assert(pretv.x == tvx && pretv.y == tvy);
                    assert(crate::body::speed2(pretv) == speed2i(tvx, tvy));
                    assert(moved_kinematics(b, nb, cmd));
                    assert(moved_player(w0, self.snap(), i as int, cmd)) by {
                        assert(self.snap().bodies[i as int] == nb);
                        assert(w0.bodies[i as int] == b);
                    }
                    assert forall|j: int|
                        0 <= j < i && old(self).alive@[j] && old(self).roles@[j]
                            is Player implies #[trigger] moved_player(
                        w0,
                        self.snap(),
                        j,
                        cmd,
                    ) by {
                        assert(moved_player(w0, presnap, j, cmd));
                        assert(self.snap().bodies[j] == presnap.bodies[j]);
                    }
                }
            }
            i = i + 1;
        }
    }

    /// Fires a bullet: every live player takes the recoil impulse
    /// (`-0.1` units along its heading, saturated to the velocity range),
    /// and one bullet is spawned from the last live player: the player's
    /// position and heading, the recoiled velocity plus a 15-unit forward
    /// boost (saturated likewise), a random spin in `[0, 6)`, a 1 by 0.5
    /// display rectangle. With no live player nothing changes.
    pub fn spawn_bullet(&mut self)
        requires
            old(self).wf(),
        ensures
            final (self).wf(),
            final (self).pending@ == old(self).pending@,
            (forall|j: int|
                0 <= j < old(self).alive@.len() ==> !(old(self).alive@[j] && #[trigger] old(
                self).roles@[j] is Player)) ==> final (self).alive@.len() == old(
                self).alive@.len(),
            forall|j: int|
                0 <= j < old(self).alive@.len() && !(old(self).alive@[j] && old(self).roles@[j]
                    is Player) ==> unchanged_at(old(self).snap(), final (self).snap(), j),
            forall|j: int|
                0 <= j < old(self).alive@.len() && old(self).alive@[j] && old(self).roles@[j]
                    is Player ==> #[trigger] recoiled_player(old(self).snap(), final (self).snap(), j),
            (exists|j: int|
                0 <= j < old(self).alive@.len() && old(self).alive@[j] && #[trigger] old(
                self,
            ).roles@[j] is Player) ==> ({
                &&& final (self).alive@.len() == old(self).alive@.len() + 1
                &&& exists|pi: int|
                    is_last_player(old(self).snap(), pi) && #[trigger] bullet_from(
                        old(self).snap(),
                        final (self).snap(),
                        pi,
                        old(self).alive@.len() as int,
                    )
            }),
    {
        let n = self.alive.len();
        let mut i: usize = 0;
        let mut last: Option<RigidBody> = Option::None;
        let ghost w0 = old(self).snap();
        let ghost lastidx: int = 0;
        while i < n
            invariant
                0 <= i <= n,
                n == self.alive@.len(),
                self.wf(),
                w0 == old(self).snap(),
                old(self).wf(),
                self.alive@ == old(self).alive@,
                self.roles@ == old(self).roles@,
                self.polys@ == old(self).polys@,
                self.rects@ == old(self).rects@,
                self.tints@ == old(self).tints@,
                self.pending@ == old(self).pending@,
                self.bodies@.len() == old(self).bodies@.len(),
                forall|j: int|
                    i <= j < n ==> #[trigger] self.bodies@[j] == old(self).bodies@[j],
                forall|j: int|
                    0 <= j < i && !(old(self).alive@[j] && old(self).roles@[j] is Player)
                        ==> #[trigger] self.bodies@[j] == old(self).bodies@[j],
                forall|j: int|
                    0 <= j < i && old(self).alive@[j] && old(self).roles@[j] is Player
                        ==> #[trigger] recoiled_player(w0, self.snap(), j),
                last is None ==> forall|j: int|
                    0 <= j < i ==> !(old(self).alive@[j] && #[trigger] old(self).roles@[j]
                        is Player),
                last is Some ==> {
                    &&& 0 <= lastidx < i
                    &&& old(self).alive@[lastidx] && old(self).roles@[lastidx] is Player
                    &&& (forall|j: int|
                        lastidx < j < i ==> !(old(self).alive@[j] && #[trigger] old(
                        self,
                        ).roles@[j] is Player))
                    &&& last->0 == self.bodies@[lastidx]
                    &&& last->0.wf()
                },
            decreases n - i,
        {
            let is_player = match self.roles[i] {
                Role::Player { .. } => true,
                _ => false,
            };
            if self.alive[i] && is_player {
                let b = self.bodies[i];
                let (sn, cs) = sin_cos_milli(b.phi);
                let rx = div_trunc(100 * (cs as i128), 1000) as i64;
                let ry = div_trunc(100 * (sn as i128), 1000) as i64;
                let nv = V2 {
                    x: clamp_i64(b.v.x - rx, -VEL_LIM, VEL_LIM),
                    y: clamp_i64(b.v.y - ry, -VEL_LIM, VEL_LIM),
                };
                let nb = RigidBody { x: b.x, v: nv, phi: b.phi, omega: b.omega };
                let ghost presnap = self.snap();
                self.bodies.set(i, nb);
                last = Option::Some(nb);
                proof {
                    lastidx = i as int;
                    assert(recoiled_player(w0, self.snap(), i as int));
                    assert forall|j: int|
                        0 <= j < i && old(self).alive@[j] && old(self).roles@[j]
                            is Player implies #[trigger] recoiled_player(
                        w0,
                        self.snap(),
                        j,
                    ) by {
                        assert(recoiled_player(w0, presnap, j));
                        assert(self.snap().bodies[j] == presnap.bodies[j]);
                    }
                }
            }
            i = i + 1;
        }
        match last {
            Option::Some(rb) => {
                let (sn, cs) = sin_cos_milli(rb.phi);
                let bv = V2 {
                    x: clamp_i64(rb.v.x + 15 * cs, -VEL_LIM, VEL_LIM),
                    y: clamp_i64(rb.v.y + 15 * sn, -VEL_LIM, VEL_LIM),
                };
                let omega = 6 * crate::rng::rand_milli_unit();
                let bullet = RigidBody { x: rb.x, v: bv, phi: rb.phi, omega };
                let ghost presnap = self.snap();
                self.push_entity(
                    bullet,
                    Role::Bullet,
                    Option::None,
                    Option::Some(Rectangle { w: 1000, h: 500 }),
                    Tint::Red,
                );
                proof {
                    assert(is_last_player(w0, lastidx));
                    assert forall|j: int| 0 <= j < n implies self.snap().bodies[j]
                        == presnap.bodies[j] && self.snap().alive[j] == presnap.alive[j]
                        && self.snap().roles[j] == presnap.roles[j] && self.snap().polys[j]
                        == presnap.polys[j] && self.snap().rects[j] == presnap.rects[j]
                        && self.snap().tints[j] == presnap.tints[j] by {}
                    assert forall|j: int|
                        0 <= j < n && old(self).alive@[j] && old(self).roles@[j]
                            is Player implies #[trigger] recoiled_player(
                        w0,
                        self.snap(),
                        j,
                    ) by {
                        assert(recoiled_player(w0, presnap, j));
                    }
                    assert(bullet_from(w0, self.snap(), lastidx, n as int));
                }
            },
            Option::None => {},
        }
    }
}

/// Entity `j` carries the same components in both snapshots.
pub open spec fn unchanged_at(w0: WorldSnap, w1: WorldSnap, j: int) -> bool {
    &&& w1.alive[j] == w0.alive[j]
    &&& w1.bodies[j] == w0.bodies[j]
    &&& w1.roles[j] == w0.roles[j]
    &&& w1.polys[j] == w0.polys[j]
    &&& w1.rects[j] == w0.rects[j]
    &&& w1.tints[j] == w0.tints[j]
}

/// How one movement command changes a player body: thrust along the old
/// heading, rotation by a tenth of a radian (clamped into the angle range),
/// then the uniform speed clamp; position and spin are untouched, and the
/// resulting speed never exceeds 10 units.
pub open spec fn moved_kinematics(b: RigidBody, nb: RigidBody, cmd: Command) -> bool {
    let dphi: int = match cmd {
        Command::RotLeft => -100,
        Command::RotRight => 100,
        _ => 0,
    };
    let tvx = match cmd {
        Command::Fwd => b.v.x + cos_milli(b.phi as int),
        Command::Bwd => b.v.x - cos_milli(b.phi as int),
        _ => b.v.x as int,
    };
    let tvy = match cmd {
        Command::Fwd => b.v.y + sin_milli(b.phi as int),
        Command::Bwd => b.v.y - sin_milli(b.phi as int),
        _ => b.v.y as int,
    };
    &&& nb.x == b.x && nb.omega == b.omega
    &&& nb.phi == clamp_spec(b.phi + dphi, -ANG_LIM as int, ANG_LIM as int)
    &&& (speed2i(tvx, tvy) <= SPEED2_MAX as int ==> nb.v.x == tvx && nb.v.y == tvy)
    &&& (speed2i(tvx, tvy) > SPEED2_MAX as int ==> nb.v.x == crate::body::clamped_component(
        tvx,
        crate::num::sqrt_floor(speed2i(tvx, tvy) as nat) as int + 1,
    ) && nb.v.y == crate::body::clamped_component(
        tvy,
        crate::num::sqrt_floor(speed2i(tvx, tvy) as nat) as int + 1,
    ))
    &&& speed2i(nb.v.x as int, nb.v.y as int) <= SPEED2_MAX as int
}

pub open spec fn moved_player(w0: WorldSnap, w1: WorldSnap, j: int, cmd: Command) -> bool {
    &&& moved_kinematics(w0.bodies[j], w1.bodies[j], cmd)
    &&& w1.alive[j] == w0.alive[j] && w1.roles[j] == w0.roles[j] && w1.polys[j] == w0.polys[j]
        && w1.rects[j] == w0.rects[j] && w1.tints[j] == w0.tints[j]
}

/// The recoil applied to a player when a bullet is fired: a tenth of a unit
/// backwards along the heading, saturated to the velocity range.
pub open spec fn recoiled_player(w0: WorldSnap, w1: WorldSnap, j: int) -> bool {
    let b = w0.bodies[j];
    let nb = w1.bodies[j];
    &&& nb.x == b.x && nb.phi == b.phi && nb.omega == b.omega
    &&& nb.v.x == clamp_spec(
        b.v.x - tdiv(100 * cos_milli(b.phi as int), 1000),
        -VEL_LIM as int,
        VEL_LIM as int,
    )
    &&& nb.v.y == clamp_spec(
        b.v.y - tdiv(100 * sin_milli(b.phi as int), 1000),
        -VEL_LIM as int,
        VEL_LIM as int,
    )
    &&& w1.alive[j] == w0.alive[j] && w1.roles[j] == w0.roles[j] && w1.polys[j] == w0.polys[j]
        && w1.rects[j] == w0.rects[j] && w1.tints[j] == w0.tints[j]
}

/// `pi` is the last live player in the snapshot.
pub open spec fn is_last_player(w: WorldSnap, pi: int) -> bool {
    &&& 0 <= pi < w.alive.len()
    &&& w.alive[pi] && w.roles[pi] is Player
    &&& forall|j: int| pi < j < w.alive.len() ==> !(w.alive[j] && #[trigger] w.roles[j] is Player)
}

/// The bullet appended at index `bi` inherits the recoiled player `pi`'s
/// position and heading, its velocity plus a 15-unit forward boost
/// (saturated), a spin in `[0, 6)` radians, the 1 by 0.5 rectangle and the
/// red tint.
pub open spec fn bullet_from(w0: WorldSnap, w1: WorldSnap, pi: int, bi: int) -> bool {
    let pb = w1.bodies[pi];
    let nb = w1.bodies[bi];
    &&& w1.alive[bi] && w1.roles[bi] is Bullet
    &&& nb.x == pb.x && nb.phi == pb.phi
    &&& nb.v.x == clamp_spec(
        pb.v.x + 15 * cos_milli(pb.phi as int),
        -VEL_LIM as int,
        VEL_LIM as int,
    )
    &&& nb.v.y == clamp_spec(
        pb.v.y + 15 * sin_milli(pb.phi as int),
        -VEL_LIM as int,
        VEL_LIM as int,
    )
    &&& 0 <= nb.omega < 6000
    &&& w1.rects[bi] == Option::Some(Rectangle { w: 1000i64, h: 500i64 })
    &&& w1.tints[bi] == Tint::Red
    &&& w1.polys[bi] is None
}


/// A live bullet `bi` currently hitting a live asteroid `ai` (some world-space
/// edge of the asteroid's polygon passes within half a unit of the bullet).
pub open spec fn is_hit_pair(w: WorldSnap, bi: int, ai: int) -> bool {
    &&& 0 <= bi < w.alive.len() && 0 <= ai < w.alive.len()
    &&& w.alive[bi] && w.alive[ai]
    &&& w.roles[bi] is Bullet && w.roles[ai] is Asteroid
    &&& w.polys[ai] is Some
    &&& crate::collision::poly_hit(&w.polys[ai]->0, w.bodies[ai], w.bodies[bi].x)
}

/// The asteroid's mass, in micro-square-units: its area floored to that grain.
pub open spec fn mass_micro(p: Polygon) -> int {
    crate::geometry::abs_i(p.area2_spec()) * 500_000 / ((p.den as int) * (p.den as int))
}

/// The asteroid's area strictly exceeds the splitting threshold of 10 square
/// units (exact numerator comparison).
pub open spec fn big_asteroid(w: WorldSnap, ai: int) -> bool {
    crate::geometry::abs_i(w.polys[ai]->0.area2_spec()) > 20 * ((w.polys[ai]->0.den as int) * (
    w.polys[ai]->0.den as int))
}

/// The two spawned children are exactly one split of asteroid `ai` by bullet
/// `bi`: for some draws, their masses partition the dissipated parent mass,
/// the first child's motion comes from the draws, the second child's velocity
/// and spin are the truncated conservation solves, and each child's polygon
/// area sits in the square-root bracket of its mass target.
pub open spec fn split_pair_ok(
    w: WorldSnap,
    bi: int,
    ai: int,
    rb1: RigidBody,
    p1: Polygon,
    rb2: RigidBody,
    p2: Polygon,
) -> bool {
    exists|d: crate::collision::SplitDraws|
        #![trigger d.wf()]
        {
            let parent = w.bodies[ai];
            let bv = w.bodies[bi].v;
            let m = mass_micro(w.polys[ai]->0);
            let a1 = crate::collision::child1_mass(m, d.frac as int);
            let a2 = crate::collision::dissipated(m) - a1;
            &&& d.wf()
            &&& 10_000_000 <= m <= crate::collision::MASS_LIM
            &&& rb1.x == parent.x && rb2.x == parent.x
            &&& rb1.v.x == 2 * d.dir_x - 1000 && rb1.v.y == 2 * d.dir_y - 1000
            &&& rb1.phi == d.phi1 && rb2.phi == d.phi2 && rb1.omega == d.spin - 500
            &&& rb2.v.x == clamp_spec(
                tdiv(parent.v.x * m + bv.x * 500_000 - rb1.v.x * a1, a2),
                -VEL_LIM as int,
                VEL_LIM as int,
            )
            &&& rb2.v.y == clamp_spec(
                tdiv(parent.v.y * m + bv.y * 500_000 - rb1.v.y * a1, a2),
                -VEL_LIM as int,
                VEL_LIM as int,
            )
            &&& rb2.omega == clamp_spec(
                tdiv(m * parent.omega - rb1.omega * a1, a2),
                -OMEGA_LIM as int,
                OMEGA_LIM as int,
            )
            &&& rb1.wf() && rb2.wf() && p1.wf() && p2.wf()
            &&& p1.den == 1_000_000 && p2.den == 1_000_000
            &&& (exists|q: int, av: int|
                #![auto]
                av >= 1 && crate::geometry::sqrt_bracket(av, a1, q) && q <= 32_000
                    && crate::geometry::abs_i(p1.area2_spec()) == q * q * av)
            &&& (exists|q: int, av: int|
                #![auto]
                av >= 1 && crate::geometry::sqrt_bracket(av, a2, q) && q <= 32_000
                    && crate::geometry::abs_i(p2.area2_spec()) == q * q * av)
        }
}

/// One hit pair's contribution to the command buffer: the two deletions, and,
/// only for an asteroid above the splitting threshold, the two replacement
/// spawns.
pub open spec fn block_ok(w: WorldSnap, bi: int, ai: int, ext: Seq<Deferred>) -> bool {
    &&& (ext.len() == 2 || ext.len() == 4)
    &&& ext[0] == Deferred::Delete(bi as usize)
    &&& ext[1] == Deferred::Delete(ai as usize)
    &&& (ext.len() == 4 ==> {
        &&& big_asteroid(w, ai)
        &&& ext[2] matches Deferred::SpawnAsteroid(rb1, p1) && ext[3] matches
            Deferred::SpawnAsteroid(rb2, p2) && split_pair_ok(w, bi, ai, rb1, p1, rb2, p2)
    })
}

/// The whole extension of the command buffer decomposes into blocks, each
/// justified by a hit pair in the snapshot the pass ran over.
pub open spec fn justified_ext(w: WorldSnap, ext: Seq<Deferred>) -> bool
    decreases ext.len(),
{
    ||| ext.len() == 0
    ||| exists|bi: int, ai: int, k: int|
        {
            &&& is_hit_pair(w, bi, ai)
            &&& (k == 2 || k == 4) && k <= ext.len()
            &&& #[trigger] block_ok(w, bi, ai, ext.take(k))
            &&& justified_ext(w, ext.skip(k))
        }
}

/// What one pair's resolution may append: nothing when the bullet misses the
/// asteroid's posed polygon, and exactly one hit block (the two deletions,
/// plus the two conserving spawns for an asteroid above the threshold whose
/// replacement polygons came out) when it hits.
pub open spec fn pair_resolution(w: WorldSnap, bi: int, ai: int, ext: Seq<Deferred>) -> bool {
    let hit = crate::collision::poly_hit(&w.polys[ai]->0, w.bodies[ai], w.bodies[bi].x);
    &&& (!hit ==> ext == Seq::<Deferred>::empty())
    &&& (hit ==> block_ok(w, bi, ai, ext))
}

/// Every hit pair scanned strictly before position `(bi, ai)` -- bullets in
/// index order, and for each bullet the asteroids in index order.
pub open spec fn hit_pairs_to(w: WorldSnap, bi: int, ai: int) -> Seq<(int, int)>
    decreases bi, ai,
{
    if ai >= 1 {
        hit_pairs_to(w, bi, ai - 1) + if is_hit_pair(w, bi, ai - 1) {
            seq![(bi, ai - 1)]
        } else {
            Seq::empty()
        }
    } else if bi >= 1 {
        hit_pairs_to(w, bi - 1, w.alive.len() as int)
    } else {
        Seq::empty()
    }
}

/// Every hit pair of the snapshot, in scan order.
pub open spec fn all_hit_pairs(w: WorldSnap) -> Seq<(int, int)> {
    hit_pairs_to(w, w.alive.len() as int, 0)
}

/// The extension is exactly one resolution block per listed pair, in order:
/// this is the completeness side of the collision pass -- every hit pair
/// contributes its block (its two deletions at least), and nothing else is
/// appended.
pub open spec fn blocks_for_pairs(w: WorldSnap, pairs: Seq<(int, int)>, ext: Seq<Deferred>) -> bool
    decreases pairs.len(),
{
    if pairs.len() == 0 {
        ext.len() == 0
    } else {
        exists|k: int|
            {
                &&& (k == 2 || k == 4) && k <= ext.len()
                &&& #[trigger] block_ok(w, pairs[0].0, pairs[0].1, ext.take(k))
                &&& blocks_for_pairs(w, pairs.skip(1), ext.skip(k))
            }
    }
}

/// Appending one pair's block to a block decomposition extends it.
proof fn lemma_blocks_append(
    w: WorldSnap,
    pairs: Seq<(int, int)>,
    ext: Seq<Deferred>,
    bi: int,
    ai: int,
    blk: Seq<Deferred>,
)
    requires
        blocks_for_pairs(w, pairs, ext),
        block_ok(w, bi, ai, blk),
        blk.len() == 2 || blk.len() == 4,
    ensures
        blocks_for_pairs(w, pairs.push((bi, ai)), ext + blk),
    decreases pairs.len(),
{
    if pairs.len() == 0 {
        assert(ext + blk =~= blk);
        let np = pairs.push((bi, ai));
        assert(np[0] == (bi, ai));
        let k = blk.len() as int;
        assert(blk.take(k) =~= blk);
        assert(blk.skip(k) =~= Seq::<Deferred>::empty());
        assert(np.skip(1) =~= Seq::<(int, int)>::empty());
        assert(blocks_for_pairs(w, np.skip(1), blk.skip(k)));
        assert(block_ok(w, np[0].0, np[0].1, blk.take(k)));
        assert(blocks_for_pairs(w, np, blk));
    } else {
        let k0 = choose|k: int|
            {
                &&& (k == 2 || k == 4) && k <= ext.len()
                &&& #[trigger] block_ok(w, pairs[0].0, pairs[0].1, ext.take(k))
                &&& blocks_for_pairs(w, pairs.skip(1), ext.skip(k))
            };
        lemma_blocks_append(w, pairs.skip(1), ext.skip(k0), bi, ai, blk);
        let np = pairs.push((bi, ai));
        assert((ext + blk).take(k0) =~= ext.take(k0));
        assert((ext + blk).skip(k0) =~= ext.skip(k0) + blk);
        assert(np.skip(1) =~= pairs.skip(1).push((bi, ai)));
        assert(np[0] == pairs[0]);
        assert(block_ok(w, np[0].0, np[0].1, (ext + blk).take(k0)));
        assert(blocks_for_pairs(w, np.skip(1), (ext + blk).skip(k0)));
        assert(blocks_for_pairs(w, np, ext + blk));
    }
}

/// A row of the scan with no hits contributes no pairs.
proof fn lemma_row_no_hits(w: WorldSnap, bi: int, m: int)
    requires
        m >= 0,
        forall|a: int| 0 <= a < m ==> !(#[trigger] is_hit_pair(w, bi, a)),
    ensures
        hit_pairs_to(w, bi, m) == hit_pairs_to(w, bi, 0),
    decreases m,
{
    if m > 0 {
        lemma_row_no_hits(w, bi, m - 1);
        assert(hit_pairs_to(w, bi, m) =~= hit_pairs_to(w, bi, m - 1));
    }
}

/// Justified extensions compose.
pub proof fn lemma_justified_concat(w: WorldSnap, e1: Seq<Deferred>, e2: Seq<Deferred>)
    requires
        justified_ext(w, e1),
        justified_ext(w, e2),
    ensures
        justified_ext(w, e1 + e2),
    decreases e1.len(),
{
    if e1.len() == 0 {
        assert(e1 + e2 =~= e2);
    } else {
        let (bi, ai, k) = choose|bi: int, ai: int, k: int|
            {
                &&& is_hit_pair(w, bi, ai)
                &&& (k == 2 || k == 4) && k <= e1.len()
                &&& #[trigger] block_ok(w, bi, ai, e1.take(k))
                &&& justified_ext(w, e1.skip(k))
            };
        lemma_justified_concat(w, e1.skip(k), e2);
        assert((e1 + e2).take(k) =~= e1.take(k));
        assert((e1 + e2).skip(k) =~= e1.skip(k) + e2);
        assert(block_ok(w, bi, ai, (e1 + e2).take(k)));
        assert(justified_ext(w, e1 + e2));
    }
}

/// Law: asteroids at or below the 10-square-unit threshold never
/// spawn children: if no live asteroid in the snapshot is above the
/// threshold, a justified command extension contains no spawn at all, only
/// deletions.
pub proof fn lemma_small_asteroids_never_split(w: WorldSnap, ext: Seq<Deferred>)
    requires
        justified_ext(w, ext),
        forall|ai: int|
            0 <= ai < w.polys.len() && w.polys[ai] is Some ==> !(#[trigger] big_asteroid(w, ai)),
        w.polys.len() == w.alive.len(),
    ensures
        forall|j: int| 0 <= j < ext.len() ==> !((#[trigger] ext[j]) is SpawnAsteroid),
    decreases ext.len(),
{
    if ext.len() > 0 {
        let (bi, ai, k) = choose|bi: int, ai: int, k: int|
            {
                &&& is_hit_pair(w, bi, ai)
                &&& (k == 2 || k == 4) && k <= ext.len()
                &&& #[trigger] block_ok(w, bi, ai, ext.take(k))
                &&& justified_ext(w, ext.skip(k))
            };
        assert(w.polys[ai] is Some);
        assert(!big_asteroid(w, ai));
        assert(k == 2) by {
            if k == 4 {
                assert(big_asteroid(w, ai));
            }
        }
        lemma_small_asteroids_never_split(w, ext.skip(2));
        assert forall|j: int| 0 <= j < ext.len() implies !((#[trigger] ext[j]) is SpawnAsteroid) by {
            if j < 2 {
                assert(ext.take(2)[j] == ext[j]);
            } else {
                assert(ext.skip(2)[j - 2] == ext[j]);
            }
        }
    }
}

impl World {
    /// Resolves one bullet/asteroid pair: if some edge of the asteroid's
    /// posed polygon is hit, queues the deletion of both entities and, for an
    /// asteroid above the splitting threshold whose replacement polygons can
    /// be generated and scaled, the two conserving children. No live
    /// component changes; only the command buffer grows.
    fn resolve_pair(&mut self, bi: usize, ai: usize)
        requires
            old(self).wf(),
            bi < old(self).alive@.len(),
            ai < old(self).alive@.len(),
            old(self).alive@[bi as int] && old(self).alive@[ai as int],
            old(self).roles@[bi as int] is Bullet,
            old(self).roles@[ai as int] is Asteroid,
            old(self).polys@[ai as int] is Some,
        ensures
            final (self).wf(),
            final (self).snap() == old(self).snap(),
            exists|ext: Seq<Deferred>|
                {
                    &&& final (self).pending@ == old(self).pending@ + ext
                    &&& #[trigger] justified_ext(old(self).snap(), ext)
                    &&& pair_resolution(old(self).snap(), bi as int, ai as int, ext)
                },
    {
        let ghost w0 = old(self).snap();
        let bpos = self.bodies[bi].x;
        let abody = self.bodies[ai];
        let (hit, a2v, den) = match &self.polys[ai] {
            Option::Some(p) => {
                let h = crate::collision::first_hit_edge(p, &abody, &bpos);
                (h.is_some(), p.area2(), p.den)
            },
            Option::None => (false, 0, 1000),
        };
        if !hit {
            proof {
                assert(self.pending@ =~= old(self).pending@ + Seq::<Deferred>::empty());
                assert(justified_ext(w0, Seq::<Deferred>::empty()));
                assert(!crate::collision::poly_hit(
                    &w0.polys[ai as int]->0,
                    w0.bodies[ai as int],
                    w0.bodies[bi as int].x,
                ));
                assert(pair_resolution(w0, bi as int, ai as int, Seq::<Deferred>::empty()));
            }
            return ;
        }
        proof {
            assert(crate::collision::poly_hit(
                &w0.polys[ai as int]->0,
                w0.bodies[ai as int],
                w0.bodies[bi as int].x,
            ));
        }
        self.pending.push(Deferred::Delete(bi));
        self.pending.push(Deferred::Delete(ai));
        proof {
            assert(is_hit_pair(w0, bi as int, ai as int));
        }
        let ghost dd: Seq<Deferred> = seq![
            Deferred::Delete(bi),
            Deferred::Delete(ai),
        ];
        proof {
            assert(self.pending@ =~= old(self).pending@ + dd);
        }
        proof {
            lemma_mul_bounds(den as int, den as int, 1_000_000, 1_000_000);
            assert(1_000_000 * 1_000_000int == 1_000_000_000_000int) by (nonlinear_arith);
        }
        proof {
            assert(self.polys@[ai as int]->0.wf());
            assert(1000 <= den <= 1_000_000);
        }
        if a2v > 20 * ((den as i128) * (den as i128)) {
            let m128 = crate::num::div_floor(a2v * 500_000, (den as i128) * (den as i128));
            proof {
                let d2 = (den as int) * (den as int);
                assert(d2 >= 1_000_000) by (nonlinear_arith)
                    requires
                        den >= 1000,
                        d2 == (den as int) * (den as int),
                ;
                assert(a2v * 500_000 >= (20 * d2 + 1) * 500_000) by (nonlinear_arith)
                    requires
                        a2v >= 20 * d2 + 1,
                        d2 >= 1,
                ;
                assert((20 * d2 + 1) * 500_000 == 10_000_000 * d2 + 500_000) by (nonlinear_arith);
                vstd::arithmetic::div_mod::lemma_div_is_ordered(
                    10_000_000 * d2,
                    a2v as int * 500_000,
                    d2,
                );
                vstd::arithmetic::div_mod::lemma_div_multiples_vanish(10_000_000, d2);
                assert(d2 * 10_000_000 == 10_000_000 * d2) by (nonlinear_arith);
                assert(a2v * 500_000 <= 132_000_000_000_000 * d2) by (nonlinear_arith)
                    requires
                        a2v <= 264_000_000 * d2,
                        d2 >= 1,
                ;
                crate::num::lemma_div_range(a2v as int * 500_000, d2, 132_000_000_000_000);
            }
            let m = m128 as i64;
            let d = crate::collision::SplitDraws {
                frac: crate::rng::rand_milli_unit(),
                dir_x: crate::rng::rand_milli_unit(),
                dir_y: crate::rng::rand_milli_unit(),
                spin: crate::rng::rand_milli_unit(),
                phi1: crate::rng::rand_milli_unit(),
                phi2: crate::rng::rand_milli_unit(),
            };
            let bv = self.bodies[bi].v;
            let (rb1, rb2, a1, a2) = crate::collision::split_children(&abody, &bv, m, &d);
            proof {
                vstd::arithmetic::div_mod::lemma_div_is_ordered(
                    (m as int) * 19,
                    (m as int) * 20,
                    20,
                );
                vstd::arithmetic::div_mod::lemma_div_multiples_vanish(m as int, 20);
                assert((m as int) * 19 <= (m as int) * 20 && (m as int) * 20 == 20 * (m as int))
                    by (nonlinear_arith)
                    requires
                        m >= 0,
                ;
                assert(crate::collision::dissipated(m as int) <= m);
            }
            let c1 = Polygon::random();
            let c2 = Polygon::random();
            match (c1, c2) {
                (Option::Some(mut p1), Option::Some(mut p2)) => {
                    let ghost p1pre = p1;
                    let ghost p2pre = p2;
                    let ok1 = p1.scale_to_area(a1);
                    let ok2 = p2.scale_to_area(a2);
                    if ok1 && ok2 {
                        proof {
                            let q1 = choose|q: int|
                                {
                                    &&& #[trigger] crate::geometry::sqrt_bracket(
                                        crate::geometry::abs_i(p1pre.area2_spec()),
                                        a1 as int,
                                        q,
                                    )
                                    &&& q <= 32_000
                                    &&& p1.verts() == crate::shoelace::scaled(p1pre.verts(), q)
                                    &&& p1.area2_spec() == q * q * p1pre.area2_spec()
                                };
                            let q2 = choose|q: int|
                                {
                                    &&& #[trigger] crate::geometry::sqrt_bracket(
                                        crate::geometry::abs_i(p2pre.area2_spec()),
                                        a2 as int,
                                        q,
                                    )
                                    &&& q <= 32_000
                                    &&& p2.verts() == crate::shoelace::scaled(p2pre.verts(), q)
                                    &&& p2.area2_spec() == q * q * p2pre.area2_spec()
                                };
                            let av1 = crate::geometry::abs_i(p1pre.area2_spec());
                            let av2 = crate::geometry::abs_i(p2pre.area2_spec());
                            assert(av1 >= 1 && q1 >= 0) by (nonlinear_arith)
                                requires
                                    crate::geometry::sqrt_bracket(av1, a1 as int, q1),
                                    a1 >= 1,
                            ;
                            assert(av2 >= 1 && q2 >= 0) by (nonlinear_arith)
                                requires
                                    crate::geometry::sqrt_bracket(av2, a2 as int, q2),
                                    a2 >= 1,
                            ;
                            assert(crate::geometry::abs_i(p1.area2_spec()) == q1 * q1 * av1)
                                by (nonlinear_arith)
                                requires
                                    p1.area2_spec() == q1 * q1 * p1pre.area2_spec(),
                                    av1 == crate::geometry::abs_i(p1pre.area2_spec()),
                                    crate::geometry::abs_i(p1.area2_spec()) == if p1.area2_spec()
                                        < 0 {
                                        -p1.area2_spec()
                                    } else {
                                        p1.area2_spec()
                                    },
                                    q1 >= 0,
                            ;
                            assert(crate::geometry::abs_i(p2.area2_spec()) == q2 * q2 * av2)
                                by (nonlinear_arith)
                                requires
                                    p2.area2_spec() == q2 * q2 * p2pre.area2_spec(),
                                    av2 == crate::geometry::abs_i(p2pre.area2_spec()),
                                    crate::geometry::abs_i(p2.area2_spec()) == if p2.area2_spec()
                                        < 0 {
                                        -p2.area2_spec()
                                    } else {
                                        p2.area2_spec()
                                    },
                                    q2 >= 0,
                            ;
                            assert(m == mass_micro(w0.polys[ai as int]->0));
                            assert(d.wf());
                            assert(split_pair_ok(w0, bi as int, ai as int, rb1, p1, rb2, p2));
                        }
                        self.pending.push(Deferred::SpawnAsteroid(rb1, p1));
                        self.pending.push(Deferred::SpawnAsteroid(rb2, p2));
                        let ghost blk: Seq<Deferred> = seq![
                            Deferred::Delete(bi),
                            Deferred::Delete(ai),
                            Deferred::SpawnAsteroid(rb1, p1),
                            Deferred::SpawnAsteroid(rb2, p2),
                        ];
                        proof {
                            assert(self.pending@ =~= old(self).pending@ + blk);
                            assert(blk.take(4) =~= blk);
                            assert(block_ok(w0, bi as int, ai as int, blk.take(4)));
                            assert(justified_ext(w0, blk.skip(4)));
                            assert(justified_ext(w0, blk));
                            assert(block_ok(w0, bi as int, ai as int, blk));
                            assert(pair_resolution(w0, bi as int, ai as int, blk));
                        }
                        return ;
                    }
                },
                _ => {},
            }
        }
        proof {
            assert(dd.take(2) =~= dd);
            assert(block_ok(w0, bi as int, ai as int, dd.take(2)));
            assert(justified_ext(w0, dd.skip(2)));
            assert(justified_ext(w0, dd));
            assert(block_ok(w0, bi as int, ai as int, dd));
            assert(pair_resolution(w0, bi as int, ai as int, dd));
        }
    }
}

/// The per-tick integrator: advances every live body one step.
pub struct PhysicsUpdate;

impl PhysicsUpdate {
    /// Steps every live entity's rigid body; everything else is untouched.
    pub fn run(world: &mut World)
        requires
            old(world).wf(),
        ensures
            final (world).wf(),
            final (world).alive@ == old(world).alive@,
            final (world).roles@ == old(world).roles@,
            final (world).polys@ == old(world).polys@,
            final (world).rects@ == old(world).rects@,
            final (world).tints@ == old(world).tints@,
            final (world).pending@ == old(world).pending@,
            final (world).bodies@.len() == old(world).bodies@.len(),
            forall|j: int|
                0 <= j < old(world).bodies@.len() ==> #[trigger] final (world).bodies@[j] == if old(
                    world,
                ).alive@[j] {
                    old(world).bodies@[j].stepped()
                } else {
                    old(world).bodies@[j]
                },
    {
        let n = world.alive.len();
        let mut i: usize = 0;
        while i < n
            invariant
                0 <= i <= n,
                n == world.alive@.len(),
                world.wf(),
                old(world).wf(),
                world.alive@ == old(world).alive@,
                world.roles@ == old(world).roles@,
                world.polys@ == old(world).polys@,
                world.rects@ == old(world).rects@,
                world.tints@ == old(world).tints@,
                world.pending@ == old(world).pending@,
                world.bodies@.len() == old(world).bodies@.len(),
                forall|j: int| i <= j < n ==> #[trigger] world.bodies@[j] == old(world).bodies@[j],
                forall|j: int|
                    0 <= j < i ==> #[trigger] world.bodies@[j] == if old(world).alive@[j] {
                        old(world).bodies@[j].stepped()
                    } else {
                        old(world).bodies@[j]
                    },
            decreases n - i,
        {
            if world.alive[i] {
                let mut b = world.bodies[i];
                b.step();
                world.bodies.set(i, b);
            }
            i = i + 1;
        }
    }
}

/// The per-tick collision detector and splitting resolver: tests every
/// (bullet, asteroid) pair and queues the resolution commands.
pub struct BulletAsteroidCollision;

impl BulletAsteroidCollision {
    /// Scans every live bullet against every live asteroid, bullets in index
    /// order and for each bullet the asteroids in index order; each hit
    /// queues the pair's deletion and, above the splitting threshold, two
    /// conserving replacement asteroids. The live entity set itself never
    /// changes during the pass: only the deferred command buffer grows, and
    /// the whole extension decomposes into exactly one block per hit pair in
    /// scan order -- every hit pair's deletions are queued, and nothing else
    /// is.
    pub fn run(world: &mut World)
        requires
            old(world).wf(),
        ensures
            final (world).wf(),
            final (world).snap() == old(world).snap(),
            exists|ext: Seq<Deferred>|
                {
                    &&& final (world).pending@ == old(world).pending@ + ext
                    &&& #[trigger] justified_ext(old(world).snap(), ext)
                    &&& blocks_for_pairs(old(world).snap(), all_hit_pairs(old(world).snap()), ext)
                },
    {
        let ghost w0 = old(world).snap();
        let n = world.alive.len();
        let mut i: usize = 0;
        let ghost ext: Seq<Deferred> = Seq::empty();
        proof {
            assert(world.pending@ =~= old(world).pending@ + ext);
            assert(hit_pairs_to(w0, 0, 0) =~= Seq::<(int, int)>::empty());
            assert(blocks_for_pairs(w0, hit_pairs_to(w0, 0int, 0int), ext));
        }
        while i < n
            invariant
                0 <= i <= n,
                n == world.alive@.len(),
                world.wf(),
                old(world).wf(),
                w0 == old(world).snap(),
                world.snap() == w0,
                world.pending@ == old(world).pending@ + ext,
                justified_ext(w0, ext),
                blocks_for_pairs(w0, hit_pairs_to(w0, i as int, 0int), ext),
            decreases n - i,
        {
            let is_bullet = match world.roles[i] {
                Role::Bullet => true,
                _ => false,
            };
            if world.alive[i] && is_bullet {
                let mut j: usize = 0;
                while j < n
                    invariant
                        0 <= j <= n,
                        0 <= i < n,
                        n == world.alive@.len(),
                        world.wf(),
                        old(world).wf(),
                        w0 == old(world).snap(),
                        world.snap() == w0,
                        world.alive@[i as int] && world.roles@[i as int] is Bullet,
                        world.pending@ == old(world).pending@ + ext,
                        justified_ext(w0, ext),
                        blocks_for_pairs(w0, hit_pairs_to(w0, i as int, j as int), ext),
                    decreases n - j,
                {
                    let is_ast = match world.roles[j] {
                        Role::Asteroid => true,
                        _ => false,
                    };
                    let has_poly = match &world.polys[j] {
                        Option::Some(_) => true,
                        Option::None => false,
                    };
                    if world.alive[j] && is_ast && has_poly {
                        let ghost pre_pending = world.pending@;
                        world.resolve_pair(i, j);
                        proof {
                            let ext2 = choose|ext2: Seq<Deferred>|
                                {
                                    &&& world.pending@ == pre_pending + ext2
                                    &&& #[trigger] justified_ext(w0, ext2)
                                    &&& pair_resolution(w0, i as int, j as int, ext2)
                                };
                            lemma_justified_concat(w0, ext, ext2);
                            assert(world.pending@ =~= old(world).pending@ + (ext + ext2));
                            if crate::collision::poly_hit(
                                &w0.polys[j as int]->0,
                                w0.bodies[j as int],
                                w0.bodies[i as int].x,
                            ) {
                                assert(is_hit_pair(w0, i as int, j as int));
                                assert(block_ok(w0, i as int, j as int, ext2));
                                lemma_blocks_append(
                                    w0,
                                    hit_pairs_to(w0, i as int, j as int),
                                    ext,
                                    i as int,
                                    j as int,
                                    ext2,
                                );
                                assert(hit_pairs_to(w0, i as int, j as int + 1) =~= hit_pairs_to(
                                    w0,
                                    i as int,
                                    j as int,
                                ).push((i as int, j as int)));
                            } else {
                                assert(!is_hit_pair(w0, i as int, j as int));
                                assert(ext2 == Seq::<Deferred>::empty());
                                assert(ext + ext2 =~= ext);
                                assert(hit_pairs_to(w0, i as int, j as int + 1) =~= hit_pairs_to(
                                    w0,
                                    i as int,
                                    j as int,
                                ));
                            }
                            ext = ext + ext2;
                            assert(blocks_for_pairs(
                                w0,
                                hit_pairs_to(w0, i as int, j as int + 1),
                                ext,
                            ));
                        }
                    } else {
                        proof {
                            assert(!is_hit_pair(w0, i as int, j as int));
                            assert(hit_pairs_to(w0, i as int, j as int + 1) =~= hit_pairs_to(
                                w0,
                                i as int,
                                j as int,
                            ));
                        }
                    }
                    j = j + 1;
                }
                proof {
                    assert(hit_pairs_to(w0, i as int + 1, 0int) == hit_pairs_to(
                        w0,
                        i as int,
                        w0.alive.len() as int,
                    ));
                    assert(blocks_for_pairs(w0, hit_pairs_to(w0, i as int + 1, 0int), ext));
                }
            } else {
                proof {
                    assert(forall|a: int|
                        0 <= a < n ==> !(#[trigger] is_hit_pair(w0, i as int, a)));
                    lemma_row_no_hits(w0, i as int, n as int);
                    assert(hit_pairs_to(w0, i as int + 1, 0int) == hit_pairs_to(
                        w0,
                        i as int,
                        w0.alive.len() as int,
                    ));
                    assert(blocks_for_pairs(w0, hit_pairs_to(w0, i as int + 1, 0int), ext));
                }
            }
            i = i + 1;
        }
        proof {
            assert(blocks_for_pairs(w0, all_hit_pairs(w0), ext));
        }
    }
}

/// The snapshot after one integrator pass: every live body stepped, dead
/// slots untouched, every other column unchanged.
pub open spec fn stepped_snap(w: WorldSnap) -> WorldSnap {
    WorldSnap {
        bodies: Seq::new(
            w.bodies.len(),
            |j: int|
                if w.alive[j] {
                    w.bodies[j].stepped()
                } else {
                    w.bodies[j]
                },
        ),
        ..w
    }
}

/// One deferred command applied to a snapshot.
pub open spec fn apply_one(w: WorldSnap, c: Deferred) -> WorldSnap {
    match c {
        Deferred::Delete(e) => WorldSnap { alive: w.alive.update(e as int, false), ..w },
        Deferred::SpawnAsteroid(rb, p) => WorldSnap {
            alive: w.alive.push(true),
            bodies: w.bodies.push(rb),
            roles: w.roles.push(Role::Asteroid),
            polys: w.polys.push(Option::Some(p)),
            rects: w.rects.push(Option::None),
            tints: w.tints.push(Tint::White),
        },
    }
}

/// A command sequence applied in order.
pub open spec fn apply_cmds(w: WorldSnap, cs: Seq<Deferred>) -> WorldSnap
    decreases cs.len(),
{
    if cs.len() == 0 {
        w
    } else {
        apply_one(apply_cmds(w, cs.drop_last()), cs.last())
    }
}

impl World {
    /// The commit point: applies every queued command in order -- deletions
    /// clear the live flag, spawns append white asteroid entities -- and
    /// empties the buffer.
    pub fn commit(&mut self)
        requires
            old(self).wf(),
        ensures
            final (self).wf(),
            final (self).pending@.len() == 0,
            final (self).snap() == apply_cmds(old(self).snap(), old(self).pending@),
    {
        let ghost cmds = old(self).pending@;
        let ghost done: int = 0;
        proof {
            assert(cmds.take(0) =~= Seq::<Deferred>::empty());
        }
        while self.pending.len() > 0
            invariant
                0 <= done <= cmds.len(),
                self.pending@ == cmds.skip(done),
                self.snap() == apply_cmds(old(self).snap(), cmds.take(done)),
                self.wf(),
                old(self).wf(),
                cmds == old(self).pending@,
                self.alive@.len() >= old(self).alive@.len(),
                forall|k: int|
                    0 <= k < cmds.len() ==> match #[trigger] cmds[k] {
                        Deferred::Delete(e) => e < old(self).alive@.len(),
                        Deferred::SpawnAsteroid(rb, p) => rb.wf() && p.wf(),
                    },
            decreases self.pending@.len(),
        {
            let c = self.pending.remove(0);
            proof {
                assert(cmds.skip(done)[0] == cmds[done]);
                assert(cmds.take(done + 1).drop_last() =~= cmds.take(done));
                assert(cmds.take(done + 1).last() == cmds[done]);
                assert(self.pending@ =~= cmds.skip(done + 1)) by {
                    assert(cmds.skip(done).remove(0) =~= cmds.skip(done + 1));
                }
            }
            match c {
                Deferred::Delete(e) => {
                    self.alive.set(e, false);
                },
                Deferred::SpawnAsteroid(rb, p) => {
                    self.alive.push(true);
                    self.bodies.push(rb);
                    self.roles.push(Role::Asteroid);
                    self.polys.push(Option::Some(p));
                    self.rects.push(Option::None);
                    self.tints.push(Tint::White);
                },
            }
            proof {
                done = done + 1;
                assert(self.snap() == apply_cmds(old(self).snap(), cmds.take(done)));
            }
        }
        proof {
            assert(cmds.take(done) =~= cmds);
        }
    }

    /// One full tick, in the fixed order the simulation demands: integrate
    /// every live body, then detect and resolve collisions against the
    /// post-motion positions (queuing deferred commands), then commit the
    /// queue. The final store is exactly the stepped snapshot with the
    /// pre-existing commands and one justified, scan-order-complete block
    /// per hit pair of the stepped snapshot applied.
    pub fn tick(&mut self)
        requires
            old(self).wf(),
        ensures
            final (self).wf(),
            final (self).pending@.len() == 0,
            exists|ext: Seq<Deferred>|
                {
                    &&& #[trigger] justified_ext(stepped_snap(old(self).snap()), ext)
                    &&& blocks_for_pairs(
                        stepped_snap(old(self).snap()),
                        all_hit_pairs(stepped_snap(old(self).snap())),
                        ext,
                    )
                    &&& final (self).snap() == apply_cmds(
                        stepped_snap(old(self).snap()),
                        old(self).pending@ + ext,
                    )
                },
    {
        let ghost w0 = old(self).snap();
        let ghost pend0 = old(self).pending@;
        PhysicsUpdate::run(self);
        proof {
            assert(self.bodies@ =~= stepped_snap(w0).bodies);
            assert(self.snap() == stepped_snap(w0));
            assert(self.pending@ == pend0);
        }
        BulletAsteroidCollision::run(self);
        let ghost ext = choose|ext: Seq<Deferred>|
            {
                &&& self.pending@ == pend0 + ext
                &&& #[trigger] justified_ext(stepped_snap(w0), ext)
                &&& blocks_for_pairs(stepped_snap(w0), all_hit_pairs(stepped_snap(w0)), ext)
            };
        proof {
            assert(self.snap() == stepped_snap(w0));
        }
        self.commit();
        proof {
            assert(self.snap() == apply_cmds(stepped_snap(w0), pend0 + ext));
        }
    }
}

/// The closed shoelace sums of the fixed ship polygon's input chain,
/// evaluated: the loop is not degenerate and its centroid numerators are
/// small, so `Polygon::new` accepts it.
proof fn lemma_ship_polygon_sums()
    ensures
        ({
            let s = in_pts(
                seq![0i64, 5000i64, 0i64, 1250i64],
                seq![1500i64, 0i64, -1500i64, 0i64],
            );
            &&& csum(s.push(s[0])) == -11_250_000
            &&& wxsum(s.push(s[0])) == -70_312_500_000
            &&& wysum(s.push(s[0])) == 0
        }),
{
    let s = in_pts(seq![0i64, 5000i64, 0i64, 1250i64], seq![1500i64, 0i64, -1500i64, 0i64]);
    let p0 = (0int, 1500int);
    let p1 = (5000int, 0int);
    let p2 = (0int, -1500int);
    let p3 = (1250int, 0int);
    assert(s =~= seq![p0, p1, p2, p3]);
    let sc = s.push(s[0]);
    let s1 = seq![p0];
    let s2 = seq![p0, p1];
    let s3 = seq![p0, p1, p2];
    let s4 = seq![p0, p1, p2, p3];
    assert(sc =~= seq![p0, p1, p2, p3, p0]);
    assert(sc.drop_last() =~= s4);
    assert(s4.drop_last() =~= s3);
    assert(s3.drop_last() =~= s2);
    assert(s2.drop_last() =~= s1);
    assert(csum(s1) == 0 && wxsum(s1) == 0 && wysum(s1) == 0);
    assert(0int * 0 - 5000 * 1500 == -7_500_000) by (nonlinear_arith);
    assert(5000int * (-1500) - 0 * 0 == -7_500_000) by (nonlinear_arith);
    assert(0int * 0 - 1250 * (-1500) == 1_875_000) by (nonlinear_arith);
    assert(1250int * 1500 - 0 * 0 == 1_875_000) by (nonlinear_arith);
    assert(cross(p0, p1) == -7_500_000);
    assert(cross(p1, p2) == -7_500_000);
    assert(cross(p2, p3) == 1_875_000);
    assert(cross(p3, p0) == 1_875_000);
    assert((-7_500_000int) * (0 + 5000) == -37_500_000_000int) by (nonlinear_arith);
    assert((-7_500_000int) * (5000 + 0) == -37_500_000_000int) by (nonlinear_arith);
    assert(1_875_000int * (0 + 1250) == 2_343_750_000int) by (nonlinear_arith);
    assert(1_875_000int * (1250 + 0) == 2_343_750_000int) by (nonlinear_arith);
    assert((-7_500_000int) * (1500 + 0) == -11_250_000_000int) by (nonlinear_arith);
    assert((-7_500_000int) * (0 + (-1500)) == 11_250_000_000int) by (nonlinear_arith);
    assert(1_875_000int * ((-1500) + 0) == -2_812_500_000int) by (nonlinear_arith);
    assert(1_875_000int * (0 + 1500) == 2_812_500_000int) by (nonlinear_arith);
    assert(s2[0] == p0 && s2[1] == p1);
    assert(csum(s2) == csum(s1) + cross(p0, p1));
    assert(wxsum(s2) == wxsum(s1) + cross(p0, p1) * (p0.0 + p1.0));
    assert(wysum(s2) == wysum(s1) + cross(p0, p1) * (p0.1 + p1.1));
    assert(csum(s3) == csum(s2) + cross(p1, p2));
    assert(wxsum(s3) == wxsum(s2) + cross(p1, p2) * (p1.0 + p2.0));
    assert(wysum(s3) == wysum(s2) + cross(p1, p2) * (p1.1 + p2.1));
    assert(csum(s4) == csum(s3) + cross(p2, p3));
    assert(wxsum(s4) == wxsum(s3) + cross(p2, p3) * (p2.0 + p3.0));
    assert(wysum(s4) == wysum(s3) + cross(p2, p3) * (p2.1 + p3.1));
    assert(csum(sc) == csum(s4) + cross(p3, p0));
    assert(wxsum(sc) == wxsum(s4) + cross(p3, p0) * (p3.0 + p0.0));
    assert(wysum(sc) == wysum(s4) + cross(p3, p0) * (p3.1 + p0.1));
}

} // verus!
