//! Rigid bodies and their per-tick integration: position advances by
//! `velocity * dt` with `dt = 0.06`, the toroidal wrap of the 100-unit field
//! is applied in its exact documented order (including the coupling that
//! re-mirrors `y` on an `x` wrap), and orientation advances by
//! `angular velocity * dt`. Also the world-space transform of a polygon
//! vertex and the uniform speed clamp used by player movement.

use crate::geometry::V2;
use crate::num::{clamp_spec, div_trunc, div_floor, isqrt, lemma_div_range, lemma_mul_bounds, tdiv};
use crate::trig::{cos_milli, sin_cos_milli, sin_milli};
use vstd::prelude::*;

verus! {

/// Field side, in milli-units (100 units).
pub const FIELD_MILLI: i64 = 100_000;

/// Numerator of the fixed timestep `dt = 0.06` over the milli scale.
pub const DT_NUM: i64 = 60;

/// Hard bound kept on each position coordinate, in milli-units.
pub const POS_LIM: i64 = 10_000_000;

/// Hard bound kept on each velocity coordinate, in milli-units per second.
pub const VEL_LIM: i64 = 1_000_000;

/// Hard bound kept on orientation, in milli-radians.
pub const ANG_LIM: i64 = 10_000_000;

/// Hard bound kept on angular velocity, in milli-radians per second.
pub const OMEGA_LIM: i64 = 1_000_000;

/// Minimal 2-D kinematic state: position, velocity, orientation angle and
/// angular velocity, all in milli-unit fixed point.
#[derive(Clone, Copy, Debug, PartialEq, Eq, Structural)]
pub struct RigidBody {
    pub x: V2,
    pub v: V2,
    pub phi: i64,
    pub omega: i64,
}

impl RigidBody {
    /// Every component within its hard bound.
    pub open spec fn wf(&self) -> bool {
        &&& -POS_LIM <= self.x.x <= POS_LIM && -POS_LIM <= self.x.y <= POS_LIM
        &&& -VEL_LIM <= self.v.x <= VEL_LIM && -VEL_LIM <= self.v.y <= VEL_LIM
        &&& -ANG_LIM <= self.phi <= ANG_LIM
        &&& -OMEGA_LIM <= self.omega <= OMEGA_LIM
    }

    /// One integration step of this body, exactly as `step` computes it:
    /// position plus `v * dt` (truncated to milli-units), then the wrap rules
    /// in their fixed order, then the hard clamps; orientation plus
    /// `omega * dt`, clamped.
    pub open spec fn stepped(self) -> RigidBody {
        let px = self.x.x + tdiv(self.v.x * 60, 1000);
        let py0 = self.x.y + tdiv(self.v.y * 60, 1000);
        let flip_low = py0 < 0;
        let py1 = if py0 < 0 {
            py0 + FIELD_MILLI
        } else {
            py0
        };
        let flip = flip_low || py1 > FIELD_MILLI;
        let py2 = if py1 > FIELD_MILLI {
            FIELD_MILLI - py1
        } else {
            py1
        };
        let px1 = if px < 0 {
            px + FIELD_MILLI
        } else {
            px
        };
        let py3 = if px < 0 {
            FIELD_MILLI - py2
        } else {
            py2
        };
        let px2 = if px1 > FIELD_MILLI {
            FIELD_MILLI - px1
        } else {
            px1
        };
        let py4 = if px1 > FIELD_MILLI {
            FIELD_MILLI - py3
        } else {
            py3
        };
        let px3 = if flip {
            FIELD_MILLI - px2
        } else {
            px2
        };
        let phi1 = self.phi + tdiv(self.omega * 60, 1000);
        RigidBody {
            x: V2 {
                x: clamp_spec(px3, -POS_LIM as int, POS_LIM as int) as i64,
                y: clamp_spec(py4, -POS_LIM as int, POS_LIM as int) as i64,
            },
            v: self.v,
            phi: clamp_spec(phi1, -ANG_LIM as int, ANG_LIM as int) as i64,
            omega: self.omega,
        }
    }

    /// Advances this body by one tick.
    pub fn step(&mut self)
        requires
            old(self).wf(),
        ensures
            *final (self) == old(self).stepped(),
            final (self).wf(),
    {
        let sx = div_trunc((self.v.x as i128) * 60, 1000) as i64;
        let sy = div_trunc((self.v.y as i128) * 60, 1000) as i64;
        let mut px = self.x.x + sx;
        let mut py = self.x.y + sy;
        let mut flip = false;
        if py < 0 {
            py = py + FIELD_MILLI;
            flip = true;
        }
        if py > FIELD_MILLI {
            py = FIELD_MILLI - py;
            flip = true;
        }
        if px < 0 {
            px = px + FIELD_MILLI;
            py = FIELD_MILLI - py;
        }
        if px > FIELD_MILLI {
            px = FIELD_MILLI - px;
            py = FIELD_MILLI - py;
        }
        if flip {
            px = FIELD_MILLI - px;
        }
        if px < -POS_LIM {
            px = -POS_LIM;
        }
        if px > POS_LIM {
            px = POS_LIM;
        }
        if py < -POS_LIM {
            py = -POS_LIM;
        }
        if py > POS_LIM {
            py = POS_LIM;
        }
        let dphi = div_trunc((self.omega as i128) * 60, 1000) as i64;
        let mut phi = self.phi + dphi;
        if phi < -ANG_LIM {
            phi = -ANG_LIM;
        }
        if phi > ANG_LIM {
            phi = ANG_LIM;
        }
        self.x = V2 { x: px, y: py };
        self.phi = phi;
    }
}

/// The world-space position of a polygon vertex: the vertex (numerators over
/// `den`) rotated by the crate's milli trig of `phi` and translated by `dv`,
/// rounded down to milli-units.
pub open spec fn world_pt(p: (int, int), den: int, phi: int, dv: (int, int)) -> (int, int) {
    (
        (cos_milli(phi) * p.0 - sin_milli(phi) * p.1) / den + dv.0,
        (sin_milli(phi) * p.0 + cos_milli(phi) * p.1) / den + dv.1,
    )
}

/// Rotates the vertex `v` (over denominator `den`) by `phi` and translates by
/// `dv`: the world-space milli-unit position of a body-relative point.
pub fn euclidean(v: &V2, den: i64, phi: i64, dv: &V2) -> (r: V2)
    requires
        1000 <= den <= 1_000_000,
        -2000 * den <= v.x <= 2000 * den,
        -2000 * den <= v.y <= 2000 * den,
        -POS_LIM <= dv.x <= POS_LIM,
        -POS_LIM <= dv.y <= POS_LIM,
    ensures
        r.pair() == world_pt(v.pair(), den as int, phi as int, dv.pair()),
        -POS_LIM - 4_000_000 <= r.x <= POS_LIM + 4_000_000,
        -POS_LIM - 4_000_000 <= r.y <= POS_LIM + 4_000_000,
{
    let (s, c) = sin_cos_milli(phi);
    proof {
        assert(-2_000_000 * (den as int) <= (c as int) * (v.x as int) <= 2_000_000 * (den as int)
            && -2_000_000 * (den as int) <= (s as int) * (v.y as int) <= 2_000_000 * (den as int)
            && -2_000_000 * (den as int) <= (s as int) * (v.x as int) <= 2_000_000 * (den as int)
            && -2_000_000 * (den as int) <= (c as int) * (v.y as int) <= 2_000_000 * (den as int))
            by (nonlinear_arith)
            requires
                -1000 <= c <= 1000,
                -1000 <= s <= 1000,
                den >= 1,
                -2000 * (den as int) <= v.x <= 2000 * (den as int),
                -2000 * (den as int) <= v.y <= 2000 * (den as int),
        ;
        assert(-4_000_000_000_000 <= 2_000_000 * (den as int) * 2 <= 4_000_000_000_000)
            by (nonlinear_arith)
            requires
                1 <= den <= 1_000_000,
        ;
        assert(2_000_000 * (den as int) + 2_000_000 * (den as int) == 4_000_000 * (den as int))
            by (nonlinear_arith);
    }
    let rx_num = (c as i128) * (v.x as i128) - (s as i128) * (v.y as i128);
    let ry_num = (s as i128) * (v.x as i128) + (c as i128) * (v.y as i128);
    proof {
        lemma_div_range(rx_num as int, den as int, 4_000_000);
        lemma_div_range(ry_num as int, den as int, 4_000_000);
    }
    let rx = div_floor(rx_num, den as i128) as i64;
    let ry = div_floor(ry_num, den as i128) as i64;
    V2 { x: rx + dv.x, y: ry + dv.y }
}

/// The squared magnitude of a vector given by coordinates, in squared
/// milli-units.
pub open spec fn speed2i(x: int, y: int) -> int {
    x * x + y * y
}

/// The squared magnitude of a velocity, in squared milli-units.
pub open spec fn speed2(v: V2) -> int {
    speed2i(v.x as int, v.y as int)
}

/// Squared speed limit for the player: `(10 units)^2` in squared milli-units.
pub const SPEED2_MAX: i128 = 100_000_000;

/// What the clamp stores for one velocity component: the magnitude scaled by
/// `10_000 / ceil(sqrt(speed2))`, truncated, with the sign restored.
pub open spec fn clamped_component(c: int, rc: int) -> int {
    if c >= 0 {
        (c * 10_000) / rc
    } else {
        -((-c * 10_000) / rc)
    }
}

/// Rescales `v` uniformly so its magnitude does not exceed 10 units, when it
/// does; a velocity already within the limit is left unchanged. The divisor
/// is the ceiling of the square root of the squared speed, so the clamped
/// squared speed provably stays within `SPEED2_MAX`.
pub fn clamp_speed(v: &mut V2)
    requires
        -2_000_000 <= old(v).x <= 2_000_000,
        -2_000_000 <= old(v).y <= 2_000_000,
    ensures
        speed2(*old(v)) <= SPEED2_MAX as int ==> *final (v) == *old(v),
        speed2(*old(v)) > SPEED2_MAX as int ==> final (v).x == clamped_component(
            old(v).x as int,
            crate::num::sqrt_floor(speed2(*old(v)) as nat) as int + 1,
        ) && final (v).y == clamped_component(
            old(v).y as int,
            crate::num::sqrt_floor(speed2(*old(v)) as nat) as int + 1,
        ),
        speed2(*final (v)) <= SPEED2_MAX as int,
        -2_000_000 <= final (v).x <= 2_000_000,
        -2_000_000 <= final (v).y <= 2_000_000,
{
    proof {
        lemma_mul_bounds(old(v).x as int, old(v).x as int, 2_000_000, 2_000_000);
        lemma_mul_bounds(old(v).y as int, old(v).y as int, 2_000_000, 2_000_000);
        assert(2_000_000 * 2_000_000int == 4_000_000_000_000int) by (nonlinear_arith);
    }
    let s2: i128 = (v.x as i128) * (v.x as i128) + (v.y as i128) * (v.y as i128);
    if s2 <= SPEED2_MAX {
        proof {
            assert(speed2(*v) == s2);
        }
        return ;
    }
    proof {
        assert(s2 < (1u128 << 96)) by (bit_vector)
            requires
                0 <= s2 <= 8_000_000_000_000i128,
        ;
    }
    let r0 = isqrt(s2 as u128);
    let rc = (r0 as i128) + 1;
    proof {
        assert(rc * rc > s2 && 1 <= rc && rc <= 3_000_000) by (nonlinear_arith)
            requires
                rc == r0 + 1,
                0 <= r0 < 281_474_976_710_656,
                (r0 as int) * (r0 as int) <= s2 as int,
                (s2 as int) < ((r0 as int) + 1) * ((r0 as int) + 1),
                0 <= s2 <= 8_000_000_000_000i128,
        ;
    }
    let ax: i128 = if v.x >= 0 {
        v.x as i128
    } else {
        -(v.x as i128)
    };
    let ay: i128 = if v.y >= 0 {
        v.y as i128
    } else {
        -(v.y as i128)
    };
    let qx = div_floor(ax * 10_000, rc);
    let qy = div_floor(ay * 10_000, rc);
    proof {
        assert(ax as int * (ax as int) == (v.x as int) * (v.x as int) && ay as int * (ay as int)
            == (v.y as int) * (v.y as int)) by (nonlinear_arith)
            requires
                ax as int == v.x as int || ax as int == -(v.x as int),
                ay as int == v.y as int || ay as int == -(v.y as int),
        ;
        lemma_clamp_quotients(ax as int, ay as int, qx as int, qy as int, rc as int, s2 as int);
        assert(rc == crate::num::sqrt_floor(speed2(*old(v)) as nat) + 1);
    }
    let nx: i64 = if v.x >= 0 {
        qx as i64
    } else {
        -(qx as i64)
    };
    let ny: i64 = if v.y >= 0 {
        qy as i64
    } else {
        -(qy as i64)
    };
    v.x = nx;
    v.y = ny;
    proof {
        assert(speed2(*v) == qx * qx + qy * qy) by (nonlinear_arith)
            requires
                (v.x as int == qx as int || v.x as int == -(qx as int)) && (v.y as int
                    == qy as int || v.y as int == -(qy as int)),
        ;
        assert(v.x as int == clamped_component(old(v).x as int, rc as int));
        assert(v.y as int == clamped_component(old(v).y as int, rc as int));
    }
}

/// The rescaled components stay within the squared speed limit: each
/// quotient is at most its share of `10_000 * magnitude / rc`, and
/// `rc * rc > s2` makes the rescaled squared sum smaller than `10_000^2`.
proof fn lemma_clamp_quotients(ax: int, ay: int, qx: int, qy: int, rc: int, s2: int)
    requires
        0 <= ax,
        0 <= ay,
        rc >= 1,
        s2 == ax * ax + ay * ay,
        s2 < rc * rc,
        qx == (ax * 10_000) / rc,
        qy == (ay * 10_000) / rc,
    ensures
        0 <= qx <= 10_000,
        0 <= qy <= 10_000,
        qx * qx + qy * qy <= 100_000_000,
{
    vstd::arithmetic::div_mod::lemma_fundamental_div_mod(ax * 10_000, rc);
    vstd::arithmetic::div_mod::lemma_fundamental_div_mod(ay * 10_000, rc);
    let mx = (ax * 10_000) % rc;
    let my = (ay * 10_000) % rc;
    assert(ax * 10_000 >= 0) by (nonlinear_arith)
        requires
            ax >= 0,
    ;
    assert(ay * 10_000 >= 0) by (nonlinear_arith)
        requires
            ay >= 0,
    ;
    vstd::arithmetic::div_mod::lemma_div_pos_is_pos(ax * 10_000, rc);
    vstd::arithmetic::div_mod::lemma_div_pos_is_pos(ay * 10_000, rc);
    vstd::arithmetic::div_mod::lemma_div_nonincreasing(ax * 10_000, rc);
    vstd::arithmetic::div_mod::lemma_div_nonincreasing(ay * 10_000, rc);
    // qx * rc <= ax * 10_000, so (qx * rc)^2 <= (ax * 10_000)^2, and summing
    // both components bounds the rescaled squared speed by s2 * 10_000^2,
    // which is below rc^2 * 10_000^2.
    assert(qx * rc <= ax * 10_000 && qy * rc <= ay * 10_000) by (nonlinear_arith)
        requires
            ax * 10_000 == rc * qx + mx,
            ay * 10_000 == rc * qy + my,
            mx >= 0,
            my >= 0,
    ;
    assert((qx * qx + qy * qy) * (rc * rc) <= (ax * ax + ay * ay) * (10_000 * 10_000))
        by (nonlinear_arith)
        requires
            0 <= qx,
            0 <= qy,
            rc >= 1,
            qx * rc <= ax * 10_000,
            qy * rc <= ay * 10_000,
            0 <= ax,
            0 <= ay,
    ;
    assert(qx * qx + qy * qy <= 100_000_000) by (nonlinear_arith)
        requires
            (qx * qx + qy * qy) * (rc * rc) <= (ax * ax + ay * ay) * (10_000 * 10_000),
            ax * ax + ay * ay < rc * rc,
            rc >= 1,
            0 <= qx * qx + qy * qy,
    ;
    assert(0 <= qx * qx + qy * qy) by (nonlinear_arith)
        requires
            0 <= qx,
            0 <= qy,
    ;
    assert(qx <= 10_000 && qy <= 10_000) by (nonlinear_arith)
        requires
            qx * qx + qy * qy <= 100_000_000,
            0 <= qx,
            0 <= qy,
    ;
}

} // verus!
