//! Bullet-versus-asteroid collision mathematics and the splitting resolver's
//! arithmetic, all exact over milli-unit integers.
//!
//! A bullet hits a polygon edge when the projection of the bullet's position
//! onto the edge's line falls strictly inside the segment and the distance to
//! the projection is below half a unit; both conditions are decided exactly
//! by cross-multiplied integer comparisons. Splitting divides the dissipated
//! parent mass between two children exactly and solves the second child's
//! velocity and spin from momentum conservation with truncating division, so
//! the conservation error is provably below one quantum of `a2`.

use crate::body::{world_pt, RigidBody, OMEGA_LIM, POS_LIM, VEL_LIM};
use crate::geometry::{abs_i, Polygon, V2};
use crate::num::{clamp_i64, clamp_spec, div_trunc, lemma_mul_bounds, tdiv};
use vstd::arithmetic::div_mod::{lemma_div_pos_is_pos, lemma_fundamental_div_mod};
use vstd::prelude::*;

verus! {

/// Squared hit distance: half a unit, in squared milli-units.
pub const HIT_DIST2_MILLI2: i64 = 250_000;

/// Mass floor for each split child, in micro-square-units.
pub const CHILD_MASS_FLOOR: i64 = 1000;

/// Splitting threshold: an asteroid of area at most 10 square units is
/// destroyed without children. `area2` numerators compare against
/// `20 * den * den` exactly.
pub const SPLIT_AREA_UNITS2: i64 = 10;

/// Whether the bullet at `b` hits the segment `x0..x1` (all in milli-units):
/// the projection parameter `t = dot/l2` lies strictly inside `(0, 1)` and
/// the squared distance from `b` to the projection is below `(1/2)^2`, i.e.
/// `4 * (|b-x0|^2 * l2 - dot^2) < 4 * 250_000 * l2`. A zero-length edge never
/// hits.
pub open spec fn seg_hit(x0: (int, int), x1: (int, int), b: (int, int)) -> bool {
    let dx = x1.0 - x0.0;
    let dy = x1.1 - x0.1;
    let l2 = dx * dx + dy * dy;
    let dot = (b.0 - x0.0) * dx + (b.1 - x0.1) * dy;
    let b2 = (b.0 - x0.0) * (b.0 - x0.0) + (b.1 - x0.1) * (b.1 - x0.1);
    l2 != 0 && 0 < dot < l2 && b2 * l2 - dot * dot < 250_000 * l2
}

/// Decides `seg_hit` exactly for world-space milli-unit points.
pub fn seg_hits(x0: &V2, x1: &V2, b: &V2) -> (r: bool)
    requires
        -14_000_000 <= x0.x <= 14_000_000,
        -14_000_000 <= x0.y <= 14_000_000,
        -14_000_000 <= x1.x <= 14_000_000,
        -14_000_000 <= x1.y <= 14_000_000,
        -14_000_000 <= b.x <= 14_000_000,
        -14_000_000 <= b.y <= 14_000_000,
    ensures
        r == seg_hit(x0.pair(), x1.pair(), b.pair()),
{
    let dx = (x1.x as i128) - (x0.x as i128);
    let dy = (x1.y as i128) - (x0.y as i128);
    let ex = (b.x as i128) - (x0.x as i128);
    let ey = (b.y as i128) - (x0.y as i128);
    proof {
        lemma_mul_bounds(dx as int, dx as int, 28_000_000, 28_000_000);
        lemma_mul_bounds(dy as int, dy as int, 28_000_000, 28_000_000);
        lemma_mul_bounds(ex as int, dx as int, 28_000_000, 28_000_000);
        lemma_mul_bounds(ey as int, dy as int, 28_000_000, 28_000_000);
        lemma_mul_bounds(ex as int, ex as int, 28_000_000, 28_000_000);
        lemma_mul_bounds(ey as int, ey as int, 28_000_000, 28_000_000);
        assert(28_000_000 * 28_000_000int == 784_000_000_000_000int) by (nonlinear_arith);
    }
    let l2 = dx * dx + dy * dy;
    let dot = ex * dx + ey * dy;
    let b2 = ex * ex + ey * ey;
    if l2 == 0 {
        return false;
    }
    if !(0 < dot && dot < l2) {
        return false;
    }
    proof {
        lemma_mul_bounds(b2 as int, l2 as int, 1_568_000_000_000_000, 1_568_000_000_000_000);
        lemma_mul_bounds(dot as int, dot as int, 1_568_000_000_000_000, 1_568_000_000_000_000);
        assert(1_568_000_000_000_000 * 1_568_000_000_000_000int
            == 2_458_624_000_000_000_000_000_000_000_000int) by (nonlinear_arith);
        lemma_mul_bounds(250_000int, l2 as int, 250_000, 1_568_000_000_000_000);
        assert(250_000 * 1_568_000_000_000_000int == 392_000_000_000_000_000_000int)
            by (nonlinear_arith);
    }
    b2 * l2 - dot * dot < 250_000 * l2
}

/// Whether edge `k` of `poly`, posed by `body`, is hit by a bullet at `bpos`,
/// in world space.
pub open spec fn edge_hit(poly: &Polygon, body: RigidBody, bpos: V2, k: int) -> bool {
    seg_hit(
        world_pt(poly.verts()[k], poly.den as int, body.phi as int, body.x.pair()),
        world_pt(poly.verts()[k + 1], poly.den as int, body.phi as int, body.x.pair()),
        bpos.pair(),
    )
}

/// Whether any edge of the posed polygon is hit.
pub open spec fn poly_hit(poly: &Polygon, body: RigidBody, bpos: V2) -> bool {
    exists|k: int| 0 <= k < poly.verts().len() - 1 && #[trigger] edge_hit(poly, body, bpos, k)
}

/// Finds the first polygon edge hit by the bullet at `bpos`, testing each
/// world-space edge in order, exactly as `poly_hit` describes; `None` means
/// no edge is hit.
pub fn first_hit_edge(poly: &Polygon, body: &RigidBody, bpos: &V2) -> (r: Option<usize>)
    requires
        poly.wf(),
        body.wf(),
        -POS_LIM <= bpos.x <= POS_LIM,
        -POS_LIM <= bpos.y <= POS_LIM,
    ensures
        match r {
            Option::Some(k) => 0 <= k < poly.verts().len() - 1 && edge_hit(poly, *body, *bpos, k as int)
                && forall|j: int| 0 <= j < k ==> !#[trigger] edge_hit(poly, *body, *bpos, j),
            Option::None => !poly_hit(poly, *body, *bpos),
        },
{
    let n = poly.pts.len() - 1;
    let mut k: usize = 0;
    while k < n
        invariant
            0 <= k <= n,
            n == poly.pts@.len() - 1,
            poly.wf(),
            body.wf(),
            -POS_LIM <= bpos.x <= POS_LIM,
            -POS_LIM <= bpos.y <= POS_LIM,
            forall|j: int| 0 <= j < k ==> !#[trigger] edge_hit(poly, *body, *bpos, j),
        decreases n - k,
    {
        let w0 = crate::body::euclidean(&poly.pts[k], poly.den, body.phi, &body.x);
        let w1 = crate::body::euclidean(&poly.pts[k + 1], poly.den, body.phi, &body.x);
        proof {
            assert(poly.verts()[k as int] == poly.pts@[k as int].pair());
            assert(poly.verts()[k as int + 1] == poly.pts@[k as int + 1].pair());
        }
        if seg_hits(&w0, &w1, bpos) {
            return Option::Some(k);
        }
        k = k + 1;
    }
    Option::None
}

/// The random draws one split consumes, each a milli-unit in its stated
/// range: `frac` picks the first child's share of the dissipated mass,
/// `dir_x`/`dir_y` give the first child's velocity direction, `spin` its
/// angular velocity, and `phi1`/`phi2` the children's orientations.
pub struct SplitDraws {
    pub frac: i64,
    pub dir_x: i64,
    pub dir_y: i64,
    pub spin: i64,
    pub phi1: i64,
    pub phi2: i64,
}

impl SplitDraws {
    pub open spec fn wf(&self) -> bool {
        &&& 0 <= self.frac < 1000
        &&& 0 <= self.dir_x < 1000 && 0 <= self.dir_y < 1000
        &&& 0 <= self.spin < 1000
        &&& 0 <= self.phi1 < 1000 && 0 <= self.phi2 < 1000
    }
}

/// The dissipated mass: `0.95 * m`, floored, in micro-square-units.
pub open spec fn dissipated(m: int) -> int {
    m * 19 / 20
}

/// The first child's mass target: the drawn fraction of the dissipated mass,
/// clamped so both children stay at or above the floor.
pub open spec fn child1_mass(m: int, frac: int) -> int {
    clamp_spec(
        dissipated(m) * frac / 1000,
        CHILD_MASS_FLOOR as int,
        dissipated(m) - CHILD_MASS_FLOOR,
    )
}

/// Bound assumed on a parent mass, in micro-square-units.
pub const MASS_LIM: i64 = 1_000_000_000_000_000;

/// Builds the two replacement asteroids' rigid bodies and mass targets for a
/// split of a parent of mass `m` (micro-square-units) hit by a bullet of
/// velocity `bullet_v`.
///
/// Both children sit at the parent's position. The first child's velocity,
/// orientation and spin come from the draws (`2u - 1` per velocity axis,
/// `u - 0.5` for spin); the second child's velocity and spin are solved from
/// conservation: total momentum `M = v_parent * m + v_bullet * 1/2` and
/// angular momentum `m * omega_parent` (the full parent mass, as for the
/// linear momentum), each divided by `a2` with truncation and clamped into
/// the rigid-body range.
pub fn split_children(parent: &RigidBody, bullet_v: &V2, m: i64, d: &SplitDraws) -> (c: (
    RigidBody,
    RigidBody,
    i64,
    i64,
))
    requires
        parent.wf(),
        d.wf(),
        -VEL_LIM <= bullet_v.x <= VEL_LIM,
        -VEL_LIM <= bullet_v.y <= VEL_LIM,
        10_000_000 <= m <= MASS_LIM,
    ensures
        ({
            let (rb1, rb2, a1, a2) = c;
            let mm = m as int;
            &&& a1 == child1_mass(mm, d.frac as int)
            &&& a2 == dissipated(mm) - a1
            &&& a1 + a2 == dissipated(mm)
            &&& CHILD_MASS_FLOOR <= a1 && CHILD_MASS_FLOOR <= a2
            &&& rb1.x == parent.x && rb2.x == parent.x
            &&& rb1.v.x == 2 * d.dir_x - 1000 && rb1.v.y == 2 * d.dir_y - 1000
            &&& rb1.phi == d.phi1 && rb2.phi == d.phi2
            &&& rb1.omega == d.spin - 500
            &&& rb2.v.x == clamp_spec(
                tdiv(parent.v.x * mm + bullet_v.x * 500_000 - rb1.v.x * a1, a2 as int),
                -VEL_LIM as int,
                VEL_LIM as int,
            )
            &&& rb2.v.y == clamp_spec(
                tdiv(parent.v.y * mm + bullet_v.y * 500_000 - rb1.v.y * a1, a2 as int),
                -VEL_LIM as int,
                VEL_LIM as int,
            )
            &&& rb2.omega == clamp_spec(
                tdiv(mm * parent.omega - rb1.omega * a1, a2 as int),
                -OMEGA_LIM as int,
                OMEGA_LIM as int,
            )
            &&& rb1.wf() && rb2.wf()
        }),
{
    let m95 = ((m as i128) * 19 / 20) as i64;
    proof {
        lemma_div_pos_is_pos((m as int) * 19, 20);
        assert(9_500_000 <= (m as int) * 19 / 20 <= 950_000_000_000_000int) by (nonlinear_arith)
            requires
                10_000_000 <= m <= 1_000_000_000_000_000i64,
        ;
    }
    proof {
        lemma_mul_bounds(m95 as int, d.frac as int, 950_000_000_000_000, 1000);
        assert(950_000_000_000_000 * 1000int == 950_000_000_000_000_000int) by (nonlinear_arith);
    }
    let raw1 = (((m95 as i128) * (d.frac as i128)) / 1000) as i64;
    proof {
        assert(0 <= (m95 as int) * (d.frac as int) / 1000 <= 950_000_000_000_000int)
            by (nonlinear_arith)
            requires
                0 <= d.frac < 1000,
                0 <= m95 <= 950_000_000_000_000i64,
        ;
    }
    let a1 = clamp_i64(raw1, CHILD_MASS_FLOOR, m95 - CHILD_MASS_FLOOR);
    let a2 = m95 - a1;
    let v1x = 2 * d.dir_x - 1000;
    let v1y = 2 * d.dir_y - 1000;
    let om1 = d.spin - 500;
    let rb1 = RigidBody { x: parent.x, v: V2 { x: v1x, y: v1y }, phi: d.phi1, omega: om1 };
    proof {
        lemma_mul_bounds(parent.v.x as int, m as int, 1_000_000, 1_000_000_000_000_000);
        lemma_mul_bounds(parent.v.y as int, m as int, 1_000_000, 1_000_000_000_000_000);
        assert(1_000_000 * 1_000_000_000_000_000int == 1_000_000_000_000_000_000_000int)
            by (nonlinear_arith);
        lemma_mul_bounds(bullet_v.x as int, 500_000, 1_000_000, 500_000);
        lemma_mul_bounds(bullet_v.y as int, 500_000, 1_000_000, 500_000);
        assert(1_000_000 * 500_000int == 500_000_000_000int) by (nonlinear_arith);
        lemma_mul_bounds(v1x as int, a1 as int, 1000, 950_000_000_000_000);
        lemma_mul_bounds(v1y as int, a1 as int, 1000, 950_000_000_000_000);
        assert(1000 * 950_000_000_000_000int == 950_000_000_000_000_000int) by (nonlinear_arith);
        lemma_mul_bounds(m as int, parent.omega as int, 1_000_000_000_000_000, 1_000_000);
        assert(1_000_000_000_000_000 * 1_000_000int == 1_000_000_000_000_000_000_000int)
            by (nonlinear_arith);
        lemma_mul_bounds(om1 as int, a1 as int, 500, 950_000_000_000_000);
        assert(500 * 950_000_000_000_000int == 475_000_000_000_000_000int) by (nonlinear_arith);
    }
    let mx: i128 = (parent.v.x as i128) * (m as i128) + (bullet_v.x as i128) * 500_000;
    let my: i128 = (parent.v.y as i128) * (m as i128) + (bullet_v.y as i128) * 500_000;
    let v2x_raw = div_trunc(mx - (v1x as i128) * (a1 as i128), a2 as i128);
    let v2y_raw = div_trunc(my - (v1y as i128) * (a1 as i128), a2 as i128);
    let om_num: i128 = (m as i128) * (parent.omega as i128) - (om1 as i128) * (a1 as i128);
    let om2_raw = div_trunc(om_num, a2 as i128);
    let v2x = clamp_i128_to(v2x_raw, VEL_LIM);
    let v2y = clamp_i128_to(v2y_raw, VEL_LIM);
    let om2 = clamp_i128_to(om2_raw, OMEGA_LIM);
    let rb2 = RigidBody { x: parent.x, v: V2 { x: v2x, y: v2y }, phi: d.phi2, omega: om2 };
    (rb1, rb2, a1, a2)
}

/// Clamps an `i128` into `[-lim, lim]` and narrows it.
fn clamp_i128_to(x: i128, lim: i64) -> (r: i64)
    requires
        lim > 0,
    ensures
        r == clamp_spec(x as int, -lim as int, lim as int),
{
    if x < -(lim as i128) {
        -lim
    } else if x > lim as i128 {
        lim
    } else {
        x as i64
    }
}

/// Law: the two children's polygon areas conserve the dissipated
/// mass: with targets partitioning `dissipated(m)` exactly and each child's
/// area numerator sitting in its square-root bracket (what `scale_to_area`
/// guarantees), the children's total area never exceeds `0.95 m` and falls
/// short of it by less than one bracket step per child.
/// `c1`, `c2` are the children's `|csum|` numerators over the denominator
/// 1000 * 1000, so `2_000_000 * mass` is the exact comparison scale.
pub proof fn lemma_split_conserves_area(
    m: int,
    a1: int,
    a2: int,
    av1: int,
    q1: int,
    c1: int,
    av2: int,
    q2: int,
    c2: int,
)
    requires
        a1 + a2 == dissipated(m),
        av1 >= 1,
        av2 >= 1,
        crate::geometry::sqrt_bracket(av1, a1, q1),
        crate::geometry::sqrt_bracket(av2, a2, q2),
        c1 == q1 * q1 * av1,
        c2 == q2 * q2 * av2,
    ensures
        c1 + c2 <= 2_000_000 * dissipated(m),
        c1 + c2 > 2_000_000 * dissipated(m) - ((2 * q1 + 1) * av1 + (2 * q2 + 1) * av2),
{
    assert((q1 + 1) * (q1 + 1) * av1 == q1 * q1 * av1 + (2 * q1 + 1) * av1) by (nonlinear_arith);
    assert((q2 + 1) * (q2 + 1) * av2 == q2 * q2 * av2 + (2 * q2 + 1) * av2) by (nonlinear_arith);
    assert(2_000_000 * (a1 + a2) == 2_000_000 * a1 + 2_000_000 * a2) by (nonlinear_arith);
}

/// Law: splitting conserves mass up to the 5% dissipation: the two
/// children's mass targets always sum exactly to `dissipated(m) = 0.95 m`
/// (floored to a micro-square-unit), each at least the child floor.
pub proof fn lemma_split_conserves_mass(m: int, frac: int)
    requires
        10_000_000 <= m,
        0 <= frac < 1000,
    ensures
        child1_mass(m, frac) + (dissipated(m) - child1_mass(m, frac)) == dissipated(m),
        CHILD_MASS_FLOOR <= child1_mass(m, frac),
        CHILD_MASS_FLOOR <= dissipated(m) - child1_mass(m, frac),
        dissipated(m) >= 9_500_000,
{
    assert(m * 19 / 20 >= 9_500_000) by (nonlinear_arith)
        requires
            m >= 10_000_000,
    ;
}

/// Law: splitting conserves momentum to within one mass quantum:
/// when the solved velocity component `v2 = tdiv(mom - v1 * a1, a2)` is not
/// clamped, the children's total momentum differs from the conserved total
/// `mom` by less than `a2` micro-square-unit-milli-units (i.e. by less than
/// one thousandth of a micro-unit of velocity times the child mass). The
/// same bound applies per axis and to the angular-momentum solve.
pub proof fn lemma_split_conserves_momentum(mom: int, v1: int, a1: int, a2: int, v2: int)
    requires
        a2 >= 1,
        v2 == tdiv(mom - v1 * a1, a2),
    ensures
        -a2 < v1 * a1 + v2 * a2 - mom < a2,
{
    let num = mom - v1 * a1;
    if num >= 0 {
        lemma_fundamental_div_mod(num, a2);
        assert(v2 * a2 == a2 * (num / a2)) by (nonlinear_arith)
            requires
                v2 == num / a2,
        ;
        assert(0 <= num % a2 < a2);
    } else {
        lemma_fundamental_div_mod(-num, a2);
        lemma_div_pos_is_pos(-num, a2);
        assert(v2 * a2 == -(a2 * ((-num) / a2))) by (nonlinear_arith)
            requires
                v2 == -((-num) / a2),
        ;
        assert(0 <= (-num) % a2 < a2);
    }
}

} // verus!
