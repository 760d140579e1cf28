//! Polygon geometry: construction with centroid recentring, shoelace area,
//! and uniform scaling, all over exact fixed-point integers.
//!
//! A polygon stores its vertices as integer coordinate numerators over one
//! per-polygon denominator `den`; the vertex value in simulation units is
//! `pt / den`. Construction takes milli-unit coordinates (denominator 1000)
//! and recentres them by the integer-rounded shoelace centroid, so the stored
//! loop is an exact integer translation of the input and keeps its closed
//! shoelace area exactly. Scaling multiplies every numerator by `q` and the
//! denominator by `r`, which scales the area by exactly `(q/r)^2`.

use crate::num::{div_floor, isqrt, lemma_mul_bounds, MILLI};
use vstd::arithmetic::div_mod::lemma_fundamental_div_mod;
use crate::shoelace::{
    cross, csum, lemma_closed_translated, lemma_csum_bound, lemma_csum_scaled,
    lemma_csum_translated, lemma_wsum_bound, points_bounded, scaled, translated, wxsum, wysum,
};
use vstd::prelude::*;

verus! {

/// Largest denominator a polygon may carry (a vertex numerator of 1 then
/// stands for one micro-unit).
pub const DEN_MAX: i64 = 1_000_000;

/// Bound on a vertex value: 2000 units, i.e. `|pt| <= 2000 * den`.
pub const VERT_UNITS_MAX: i64 = 2000;

/// Most vertices a polygon may store, the closing duplicate included.
pub const PTS_MAX: usize = 33;

/// Bound on one milli-unit coordinate handed to `Polygon::new`.
pub const IN_COORD_MAX: i64 = 200_000;

/// A 2-D vector of fixed-point integer coordinates.
#[derive(Clone, Copy, Debug, PartialEq, Eq, Structural)]
pub struct V2 {
    pub x: i64,
    pub y: i64,
}

impl V2 {
    pub open spec fn pair(self) -> (int, int) {
        (self.x as int, self.y as int)
    }

    pub fn new(x: i64, y: i64) -> (v: V2)
        ensures
            v.x == x && v.y == y,
    {
        V2 { x, y }
    }
}

/// A closed polygon: at least three distinct vertices with the first repeated
/// as the last, centroid-relative, over the shared denominator `den`.
#[derive(Clone, Debug)]
pub struct Polygon {
    pub pts: Vec<V2>,
    pub den: i64,
}

/// The input coordinate lists as a sequence of integer points.
pub open spec fn in_pts(xs: Seq<i64>, ys: Seq<i64>) -> Seq<(int, int)> {
    Seq::new(xs.len(), |i: int| (xs[i] as int, ys[i] as int))
}

/// Floor of the x coordinate of the shoelace centroid of the polygon whose
/// vertices are the chain `s`: the sums run over the closed loop, the closing
/// edge from the last point back to the first included (meaningful only when
/// the closed shoelace sum is nonzero).
pub open spec fn centroid_x_floor(s: Seq<(int, int)>) -> int {
    let sc = s.push(s[0]);
    if csum(sc) > 0 {
        wxsum(sc) / (3 * csum(sc))
    } else {
        (-wxsum(sc)) / (3 * -csum(sc))
    }
}

/// Floor of the y coordinate of the shoelace centroid of the closed loop of
/// the chain `s`.
pub open spec fn centroid_y_floor(s: Seq<(int, int)>) -> int {
    let sc = s.push(s[0]);
    if csum(sc) > 0 {
        wysum(sc) / (3 * csum(sc))
    } else {
        (-wysum(sc)) / (3 * -csum(sc))
    }
}

/// What `Polygon::new` stores for the input chain `s`: every point shifted by
/// the integer-rounded centroid, then the first shifted point repeated to
/// close the loop.
pub open spec fn recentred(s: Seq<(int, int)>) -> Seq<(int, int)> {
    let t = (centroid_x_floor(s), centroid_y_floor(s));
    translated(s, t).push((s[0].0 - t.0, s[0].1 - t.1))
}

/// The point at index `k`, once shifted by the rounded centroid, would not
/// fit the stored-vertex bound.
pub open spec fn out_of_range_at(s: Seq<(int, int)>, k: int) -> bool {
    let t = (centroid_x_floor(s), centroid_y_floor(s));
    -2_000_000 > s[k].0 - t.0 || s[k].0 - t.0 > 2_000_000 || -2_000_000 > s[k].1 - t.1 || s[k].1
        - t.1 > 2_000_000
}

/// A recentred vertex would not fit the stored-vertex bound; construction
/// rejects the input (only reachable for centroids far outside the inputs).
pub open spec fn recentre_out_of_range(s: Seq<(int, int)>) -> bool {
    exists|k: int| 0 <= k < s.len() && #[trigger] out_of_range_at(s, k)
}

impl Polygon {
    /// Vertices as integer numerator pairs.
    pub open spec fn verts(&self) -> Seq<(int, int)> {
        self.pts@.map(|_i: int, p: V2| (p.x as int, p.y as int))
    }

    /// Well-formed polygon: a closed loop of 4 to `PTS_MAX` stored points,
    /// denominator between `MILLI` and `DEN_MAX`, every vertex value within
    /// `VERT_UNITS_MAX` units.
    pub open spec fn wf(&self) -> bool {
        &&& 4 <= self.pts@.len() <= PTS_MAX
        &&& self.pts@.last() == self.pts@.first()
        &&& MILLI <= self.den <= DEN_MAX
        &&& forall|k: int|
            0 <= k < self.pts@.len() ==> -(VERT_UNITS_MAX as int) * self.den
                <= #[trigger] self.pts@[k].x <= (VERT_UNITS_MAX as int) * self.den && -(
            VERT_UNITS_MAX as int) * self.den <= self.pts@[k].y <= (VERT_UNITS_MAX as int)
                * self.den
    }

    /// Twice the signed shoelace area of the stored loop, as a numerator over
    /// `den * den`; the polygon's area in square units is `|csum| / (2 den^2)`.
    pub open spec fn area2_spec(&self) -> int {
        csum(self.verts())
    }

    /// Number of edges: stored points without the closing duplicate.
    pub fn len(&self) -> (n: usize)
        requires
            self.wf(),
        ensures
            n == self.pts@.len() - 1,
    {
        self.pts.len() - 1
    }

    /// Builds a polygon from equal-length milli-unit coordinate lists.
    ///
    /// The centroid's shoelace sums run over the closed loop -- every
    /// consecutive input pair plus the closing edge from the last point back
    /// to the first; the points are then shifted by the floor of that
    /// centroid and the loop is closed by repeating the first shifted point.
    /// Returns `None` exactly when the closed shoelace sum is zero
    /// (degenerate loop, the centroid formula divides by it) or a shifted
    /// vertex would overflow the stored range.
    pub fn new(xs: Vec<i64>, ys: Vec<i64>) -> (r: Option<Polygon>)
        requires
            xs@.len() == ys@.len(),
            3 <= xs@.len() <= 32,
            forall|k: int|
                0 <= k < xs@.len() ==> -IN_COORD_MAX <= #[trigger] xs@[k] <= IN_COORD_MAX
                    && -IN_COORD_MAX <= #[trigger] ys@[k] <= IN_COORD_MAX,
        ensures
            ({
                let s = in_pts(xs@, ys@);
                match r {
                    Option::None => csum(s.push(s[0])) == 0 || recentre_out_of_range(s),
                    Option::Some(p) => {
                        &&& csum(s.push(s[0])) != 0
                        &&& !recentre_out_of_range(s)
                        &&& p.wf()
                        &&& p.den == MILLI
                        &&& p.verts() == recentred(s)
                        &&& p.pts@.len() == s.len() + 1
                        &&& p.area2_spec() == csum(s.push(s[0]))
                    },
                }
            }),
    {
        let ghost s = in_pts(xs@, ys@);
        let n = xs.len();
        let mut t: i128 = 0;
        let mut sx: i128 = 0;
        let mut sy: i128 = 0;
        let mut k: usize = 1;
        proof {
            assert(points_bounded(s, 200_000));
            assert(s.take(1) =~= seq![s[0]]);
        }
        while k < n
            invariant
                1 <= k <= n,
                n == xs@.len() == ys@.len(),
                3 <= n <= 32,
                s == in_pts(xs@, ys@),
                points_bounded(s, 200_000),
                t == csum(s.take(k as int)),
                sx == wxsum(s.take(k as int)),
                sy == wysum(s.take(k as int)),
            decreases n - k,
        {
            proof {
                lemma_csum_bound(s.take(k as int), 200_000);
                lemma_wsum_bound(s.take(k as int), 200_000);
                assert(s.take(k as int).len() == k as int);
                assert(-2_480_000_000_000 <= csum(s.take(k as int)) <= 2_480_000_000_000)
                    by (nonlinear_arith)
                    requires
                        1 <= k <= 31,
                        -2 * 200_000 * 200_000 * (k as int) <= csum(s.take(k as int)) <= 2
                            * 200_000 * 200_000 * (k as int),
                ;
                assert(-992_000_000_000_000_000 <= wxsum(s.take(k as int))
                    <= 992_000_000_000_000_000 && -992_000_000_000_000_000 <= wysum(s.take(
                    k as int,
                )) <= 992_000_000_000_000_000) by (nonlinear_arith)
                    requires
                        1 <= k <= 31,
                        -4 * 200_000 * 200_000 * 200_000 * (k as int) <= wxsum(s.take(k as int))
                            <= 4 * 200_000 * 200_000 * 200_000 * (k as int),
                        -4 * 200_000 * 200_000 * 200_000 * (k as int) <= wysum(s.take(k as int))
                            <= 4 * 200_000 * 200_000 * 200_000 * (k as int),
                ;
                lemma_take_step(s, k as int);
                assert(s[k as int - 1] == (xs@[k as int - 1] as int, ys@[k as int - 1] as int));
                assert(s[k as int] == (xs@[k as int] as int, ys@[k as int] as int));
                lemma_mul_bounds(
                    xs@[k as int - 1] as int,
                    ys@[k as int] as int,
                    200_000,
                    200_000,
                );
                lemma_mul_bounds(
                    xs@[k as int] as int,
                    ys@[k as int - 1] as int,
                    200_000,
                    200_000,
                );
                assert(200_000 * 200_000 == 40_000_000_000int) by (nonlinear_arith);
            }
            let c: i128 = (xs[k - 1] as i128) * (ys[k] as i128) - (xs[k] as i128) * (ys[k
                - 1] as i128);
            proof {
                lemma_mul_bounds(c as int, xs@[k as int - 1] + xs@[k as int], 80_000_000_000, 400_000);
                lemma_mul_bounds(c as int, ys@[k as int - 1] + ys@[k as int], 80_000_000_000, 400_000);
                assert(80_000_000_000 * 400_000 == 32_000_000_000_000_000int) by (nonlinear_arith);
            }
            t = t + c;
            sx = sx + c * ((xs[k - 1] as i128) + (xs[k] as i128));
            sy = sy + c * ((ys[k - 1] as i128) + (ys[k] as i128));
            k = k + 1;
        }
        let ghost sc = s.push(s[0]);
        proof {
            assert(s.take(n as int) =~= s);
            lemma_csum_bound(sc, 200_000);
            lemma_wsum_bound(sc, 200_000);
            assert(-2_640_000_000_000 <= csum(sc) <= 2_640_000_000_000) by (nonlinear_arith)
                requires
                    sc.len() <= 33,
                    -2 * 200_000 * 200_000 * (sc.len() as int) <= csum(sc) <= 2 * 200_000 * 200_000
                        * (sc.len() as int),
            ;
            assert(-1_056_000_000_000_000_000 <= wxsum(sc) <= 1_056_000_000_000_000_000
                && -1_056_000_000_000_000_000 <= wysum(sc) <= 1_056_000_000_000_000_000)
                by (nonlinear_arith)
                requires
                    sc.len() <= 33,
                    -4 * 200_000 * 200_000 * 200_000 * (sc.len() as int) <= wxsum(sc) <= 4
                        * 200_000 * 200_000 * 200_000 * (sc.len() as int),
                    -4 * 200_000 * 200_000 * 200_000 * (sc.len() as int) <= wysum(sc) <= 4
                        * 200_000 * 200_000 * 200_000 * (sc.len() as int),
            ;
            // the closing edge extends each running sum by one term
            assert(sc.drop_last() =~= s);
            assert(sc[sc.len() - 2] == s[n - 1] && sc[sc.len() - 1] == s[0]);
            lemma_mul_bounds(xs@[n - 1] as int, ys@[0] as int, 200_000, 200_000);
            lemma_mul_bounds(xs@[0] as int, ys@[n - 1] as int, 200_000, 200_000);
            assert(200_000 * 200_000 == 40_000_000_000int) by (nonlinear_arith);
        }
        let cl: i128 = (xs[n - 1] as i128) * (ys[0] as i128) - (xs[0] as i128) * (ys[n
            - 1] as i128);
        proof {
            lemma_mul_bounds(cl as int, xs@[n - 1] + xs@[0], 80_000_000_000, 400_000);
            lemma_mul_bounds(cl as int, ys@[n - 1] + ys@[0], 80_000_000_000, 400_000);
            assert(80_000_000_000 * 400_000 == 32_000_000_000_000_000int) by (nonlinear_arith);
        }
        let t = t + cl;
        let sx = sx + cl * ((xs[n - 1] as i128) + (xs[0] as i128));
        let sy = sy + cl * ((ys[n - 1] as i128) + (ys[0] as i128));
        proof {
            assert(t == csum(sc));
            assert(sx == wxsum(sc));
            assert(sy == wysum(sc));
        }
        if t == 0 {
            return Option::None;
        }
        let d3: i128 = if t > 0 {
            3 * t
        } else {
            3 * -t
        };
        let nx: i128 = if t > 0 {
            sx
        } else {
            -sx
        };
        let ny: i128 = if t > 0 {
            sy
        } else {
            -sy
        };
        let cx = div_floor(nx, d3);
        let cy = div_floor(ny, d3);
        proof {
            assert(-1_056_000_000_000_000_000 <= cx <= 1_056_000_000_000_000_000);
            assert(-1_056_000_000_000_000_000 <= cy <= 1_056_000_000_000_000_000);
        }
        proof {
            assert(cx == centroid_x_floor(s));
            assert(cy == centroid_y_floor(s));
        }
        let ghost tr = (centroid_x_floor(s), centroid_y_floor(s));
        let mut out: Vec<V2> = Vec::new();
        let mut j: usize = 0;
        while j < n
            invariant
                0 <= j <= n,
                n == xs@.len() == ys@.len(),
                3 <= n <= 32,
                s == in_pts(xs@, ys@),
                points_bounded(s, 200_000),
                tr == (centroid_x_floor(s), centroid_y_floor(s)),
                cx == tr.0 && cy == tr.1,
                -1_056_000_000_000_000_000 <= cx <= 1_056_000_000_000_000_000,
                -1_056_000_000_000_000_000 <= cy <= 1_056_000_000_000_000_000,
                out@.map(|_i: int, p: V2| (p.x as int, p.y as int)) =~= translated(s, tr).take(
                    j as int,
                ),
                out@.len() == j,
                forall|m: int|
                    0 <= m < out@.len() ==> -2_000_000 <= #[trigger] out@[m].x <= 2_000_000
                        && -2_000_000 <= out@[m].y <= 2_000_000,
            decreases n - j,
        {
            let ox = (xs[j] as i128) - cx;
            let oy = (ys[j] as i128) - cy;
            if ox < -2_000_000 || ox > 2_000_000 || oy < -2_000_000 || oy > 2_000_000 {
                proof {
                    assert(s[j as int] == (xs@[j as int] as int, ys@[j as int] as int));
                    assert(out_of_range_at(s, j as int));
                    assert(recentre_out_of_range(s));
                }
                return Option::None;
            }
            out.push(V2 { x: ox as i64, y: oy as i64 });
            proof {
                assert(out@.map(|_i: int, p: V2| (p.x as int, p.y as int)) =~= translated(
                    s,
                    tr,
                ).take(j as int + 1));
            }
            j = j + 1;
        }
        proof {
            assert(translated(s, tr).take(n as int) =~= translated(s, tr));
            assert forall|m: int| 0 <= m < s.len() implies !(#[trigger] out_of_range_at(
                s,
                m,
            )) by {
                assert(translated(s, tr)[m] == (s[m].0 - tr.0, s[m].1 - tr.1));
                assert(out@.map(|_i: int, pp: V2| (pp.x as int, pp.y as int))[m] == (out@[m].x as int,
                    out@[m].y as int));
                assert(s[m].0 - tr.0 == out@[m].x as int && s[m].1 - tr.1 == out@[m].y as int);
            }
            assert(!recentre_out_of_range(s));
        }
        let first = out[0];
        let ghost outview = out@;
        let mut pts = out;
        pts.push(first);
        let p = Polygon { pts, den: MILLI };
        proof {
            assert(p.pts@ == outview.push(outview[0]));
            assert(p.verts().len() == recentred(s).len());
            assert forall|m: int| 0 <= m < p.verts().len() implies p.verts()[m] == recentred(
                s,
            )[m] by {
                if m < n {
                    assert(p.pts@[m] == outview[m]);
                    assert(outview.map(|_i: int, pp: V2| (pp.x as int, pp.y as int))[m]
                        == translated(s, tr)[m]);
                } else {
                    assert(p.pts@[m] == outview[0]);
                    assert(outview.map(|_i: int, pp: V2| (pp.x as int, pp.y as int))[0]
                        == translated(s, tr)[0]);
                    assert(translated(s, tr)[0] == (s[0].0 - tr.0, s[0].1 - tr.1));
                    assert(recentred(s)[m] == (s[0].0 - tr.0, s[0].1 - tr.1));
                }
            }
            assert(p.verts() =~= recentred(s));
            assert(recentred(s) =~= translated(s.push(s[0]), tr));
            lemma_csum_translated(s.push(s[0]), tr);
            let sc = s.push(s[0]);
            assert(sc[0] == sc.last());
            assert(tr.1 * (sc[0].0 - sc.last().0) == 0 && tr.0 * (sc.last().1 - sc[0].1) == 0)
                by (nonlinear_arith)
                requires
                    sc[0] == sc.last(),
            ;
            assert(p.wf()) by {
                assert(MILLI <= p.den <= DEN_MAX);
                assert(forall|m: int|
                    0 <= m < p.pts@.len() ==> -2_000_000 <= #[trigger] p.pts@[m].x <= 2_000_000
                        && -2_000_000 <= p.pts@[m].y <= 2_000_000);
                assert((VERT_UNITS_MAX as int) * (MILLI as int) == 2_000_000);
            }
        }
        Option::Some(p)
    }

    /// Twice the polygon's area, as a non-negative numerator over
    /// `2 * den * den`: returns `|csum(verts)|` exactly.
    pub fn area2(&self) -> (a: i128)
        requires
            self.wf(),
        ensures
            a == abs_i(self.area2_spec()),
            0 <= a <= 1_000_000_000_000_000_000_000i128,
            a <= 264_000_000 * ((self.den as int) * (self.den as int)),
    {
        let ghost s = self.verts();
        let n = self.pts.len();
        let mut acc: i128 = 0;
        let mut k: usize = 1;
        proof {
            assert((VERT_UNITS_MAX as int) * self.den <= 2_000_000_000 && -(VERT_UNITS_MAX as int)
                * self.den >= -2_000_000_000) by (nonlinear_arith)
                requires
                    MILLI <= self.den <= DEN_MAX,
            ;
            assert(points_bounded(s, 2_000_000_000));
            assert(s.take(1) =~= seq![s[0]]);
        }
        while k < n
            invariant
                1 <= k <= n,
                n == self.pts@.len(),
                4 <= n <= PTS_MAX,
                s == self.verts(),
                self.wf(),
                points_bounded(s, 2_000_000_000),
                acc == csum(s.take(k as int)),
            decreases n - k,
        {
            proof {
                lemma_csum_bound(s.take(k as int), 2_000_000_000);
                lemma_take_step(s, k as int);
                assert(s.take(k as int).len() == k as int);
                assert(-264_000_000_000_000_000_000 <= csum(s.take(k as int))
                    <= 264_000_000_000_000_000_000) by (nonlinear_arith)
                    requires
                        1 <= k <= 33,
                        -2 * 2_000_000_000 * 2_000_000_000 * (k as int) <= csum(s.take(k as int))
                            <= 2 * 2_000_000_000 * 2_000_000_000 * (k as int),
                ;
                assert(-2_000_000_000 <= s[k as int - 1].0 <= 2_000_000_000);
                assert(-2_000_000_000 <= s[k as int].0 <= 2_000_000_000);
                lemma_mul_bounds(s[k as int - 1].0, s[k as int].1, 2_000_000_000, 2_000_000_000);
                lemma_mul_bounds(s[k as int].0, s[k as int - 1].1, 2_000_000_000, 2_000_000_000);
                assert(2_000_000_000 * 2_000_000_000 == 4_000_000_000_000_000_000int)
                    by (nonlinear_arith);
                assert(s[k as int - 1] == (self.pts@[k as int - 1].x as int, self.pts@[k as int
                    - 1].y as int));
                assert(s[k as int] == (self.pts@[k as int].x as int, self.pts@[k as int].y as int));
            }
            let a = self.pts[k - 1];
            let b = self.pts[k];
            let c: i128 = (a.x as i128) * (b.y as i128) - (b.x as i128) * (a.y as i128);
            acc = acc + c;
            k = k + 1;
        }
        proof {
            assert(s.take(n as int) =~= s);
            lemma_csum_bound(s, 2_000_000_000);
            assert(-264_000_000_000_000_000_000 <= csum(s) <= 264_000_000_000_000_000_000)
                by (nonlinear_arith)
                requires
                    s.len() <= 33,
                    -2 * 2_000_000_000 * 2_000_000_000 * (s.len() as int) <= csum(s) <= 2
                        * 2_000_000_000 * 2_000_000_000 * (s.len() as int),
            ;
            assert(points_bounded(s, 2000 * (self.den as int))) by {
                assert(forall|m: int|
                    0 <= m < s.len() ==> -(2000 * (self.den as int)) <= #[trigger] s[m].0 <= 2000
                        * (self.den as int) && -(2000 * (self.den as int)) <= s[m].1 <= 2000 * (
                    self.den as int)) by {
                    assert(forall|m: int|
                        0 <= m < s.len() ==> s[m] == (self.pts@[m].x as int,
                        self.pts@[m].y as int));
                    assert((VERT_UNITS_MAX as int) * self.den == 2000 * (self.den as int))
                        by (nonlinear_arith);
                }
            }
            lemma_csum_bound(s, 2000 * (self.den as int));
            assert(-264_000_000 * ((self.den as int) * (self.den as int)) <= csum(s)
                <= 264_000_000 * ((self.den as int) * (self.den as int))) by (nonlinear_arith)
                requires
                    s.len() <= 33,
                    self.den >= 1,
                    -2 * (2000 * (self.den as int)) * (2000 * (self.den as int)) * (s.len() as int)
                        <= csum(s) <= 2 * (2000 * (self.den as int)) * (2000 * (self.den as int))
                        * (s.len() as int),
            ;
        }
        if acc < 0 {
            -acc
        } else {
            acc
        }
    }

    /// Scales every vertex value by the rational factor `q / r`, exactly:
    /// numerators multiply by `q`, the denominator by `r`. Succeeds and
    /// reports `true` when the scaled polygon stays within the stored ranges;
    /// otherwise leaves the polygon unchanged and reports `false`.
    pub fn scale(&mut self, q: i64, r: i64) -> (ok: bool)
        requires
            old(self).wf(),
            1 <= r,
            -32_000 <= q <= 32_000,
        ensures
            final (self).wf(),
            ok ==> {
                &&& final (self).verts() == scaled(old(self).verts(), q as int)
                &&& final (self).den == old(self).den * r
                &&& final (self).area2_spec() == q * q * old(self).area2_spec()
                &&& final (self).pts@.len() == old(self).pts@.len()
            },
            !ok ==> *final (self) == *old(self),
            ok <==> (old(self).den * r <= DEN_MAX && forall|k: int|
                0 <= k < old(self).pts@.len() ==> -(VERT_UNITS_MAX as int) * (old(self).den * r)
                    <= #[trigger] old(self).pts@[k].x * q <= (VERT_UNITS_MAX as int) * (old(
                self).den * r) && -(VERT_UNITS_MAX as int) * (old(self).den * r) <= old(
                self).pts@[k].y * q <= (VERT_UNITS_MAX as int) * (old(self).den * r)),
    {
        let d0 = self.den;
        if d0 > DEN_MAX / r {
            proof {
                assert(d0 * r > DEN_MAX) by (nonlinear_arith)
                    requires
                        1 <= r,
                        d0 > (DEN_MAX as int) / (r as int),
                ;
            }
            return false;
        }
        proof {
            assert(d0 * r <= DEN_MAX) by (nonlinear_arith)
                requires
                    1 <= r,
                    d0 <= (DEN_MAX as int) / (r as int),
            ;
            assert(d0 * r >= d0) by (nonlinear_arith)
                requires
                    1 <= r,
                    d0 >= 1,
            ;
        }
        let nden = d0 * r;
        let lim: i64 = VERT_UNITS_MAX * nden;
        let n = self.pts.len();
        let mut k: usize = 0;
        while k < n
            invariant
                0 <= k <= n,
                n == self.pts@.len(),
                self == old(self),
                self.wf(),
                MILLI <= nden <= DEN_MAX,
                nden == old(self).den * r,
                lim == (VERT_UNITS_MAX as int) * nden,
                -32_000 <= q <= 32_000,
                forall|m: int|
                    0 <= m < k ==> -(lim as int) <= #[trigger] self.pts@[m].x * q <= lim as int
                        && -(lim as int) <= self.pts@[m].y * q <= lim as int,
            decreases n - k,
        {
            let p = self.pts[k];
            proof {
                assert(-64_000_000_000_000i128 <= p.x as i128 * q as i128 <= 64_000_000_000_000i128
                    && -64_000_000_000_000i128 <= p.y as i128 * q as i128
                    <= 64_000_000_000_000i128) by (nonlinear_arith)
                    requires
                        -2_000_000_000 <= p.x as i128 <= 2_000_000_000,
                        -2_000_000_000 <= p.y as i128 <= 2_000_000_000,
                        -32_000 <= q as i128 <= 32_000,
                ;
                assert(-2_000_000_000 <= self.pts@[k as int].x <= 2_000_000_000) by {
                    assert((VERT_UNITS_MAX as int) * self.den <= 2_000_000_000)
                        by (nonlinear_arith)
                        requires
                            MILLI <= self.den <= DEN_MAX,
                    ;
                }
            }
            let sx = (p.x as i128) * (q as i128);
            let sy = (p.y as i128) * (q as i128);
            if sx < -(lim as i128) || sx > lim as i128 || sy < -(lim as i128) || sy > lim as i128 {
                return false;
            }
            k = k + 1;
        }
        let mut j: usize = 0;
        let ghost oldverts = self.verts();
        while j < n
            invariant
                0 <= j <= n,
                n == self.pts@.len(),
                self.pts@.len() == old(self).pts@.len(),
                self.den == old(self).den,
                oldverts == old(self).verts(),
                MILLI <= nden <= DEN_MAX,
                nden == old(self).den * r,
                lim == (VERT_UNITS_MAX as int) * nden,
                -32_000 <= q <= 32_000,
                forall|m: int|
                    0 <= m < n ==> -(lim as int) <= #[trigger] old(self).pts@[m].x * q
                        <= lim as int && -(lim as int) <= old(self).pts@[m].y * q <= lim as int,
                forall|m: int| j <= m < n ==> #[trigger] self.pts@[m] == old(self).pts@[m],
                forall|m: int|
                    0 <= m < j ==> #[trigger] self.pts@[m].x == old(self).pts@[m].x * q
                        && self.pts@[m].y == old(self).pts@[m].y * q,
            decreases n - j,
        {
            let p = self.pts[j];
            proof {
                assert(p == old(self).pts@[j as int]);
                assert(-(lim as int) <= p.x * q <= lim as int && -(lim as int) <= p.y * q
                    <= lim as int);
            }
            let nx = p.x * q;
            let ny = p.y * q;
            self.pts.set(j, V2 { x: nx, y: ny });
            j = j + 1;
        }
        self.den = nden;
        proof {
            assert forall|m: int| 0 <= m < n implies #[trigger] self.pts@[m].x == q as int * old(
                self,
            ).pts@[m].x && self.pts@[m].y == q as int * old(self).pts@[m].y by {
                vstd::arithmetic::mul::lemma_mul_is_commutative(
                    old(self).pts@[m].x as int,
                    q as int,
                );
                vstd::arithmetic::mul::lemma_mul_is_commutative(
                    old(self).pts@[m].y as int,
                    q as int,
                );
            }
            assert(self.verts() =~= scaled(oldverts, q as int));
            lemma_csum_scaled(oldverts, q as int);
            assert(self.pts@.last() == self.pts@.first()) by {
                assert(old(self).pts@.last() == old(self).pts@.first());
                assert(self.pts@[n as int - 1].x == old(self).pts@[n as int - 1].x * q);
                assert(self.pts@[0].x == old(self).pts@[0].x * q);
                assert(self.pts@[n as int - 1].y == old(self).pts@[n as int - 1].y * q);
                assert(self.pts@[0].y == old(self).pts@[0].y * q);
            }
            assert(self.wf());
        }
        true
    }
}

/// `q` is the floor of the square root of `2_000_000 * target / a`: the
/// integer factor (in thousandths) whose square scales shoelace numerator `a`
/// (over denominator 1000) closest to `target` micro-square-units from below.
pub open spec fn sqrt_bracket(a: int, target: int, q: int) -> bool {
    0 <= q && q * q * a <= 2_000_000 * target && 2_000_000 * target < (q + 1) * (q + 1) * a
}

/// The thousandth-step scale factor `scale_to_area` uses for a polygon of
/// area numerator `a` and mass target `target`: the floor square root of
/// `2_000_000 * target / a`.
pub open spec fn scale_quot(a: int, target: int) -> int {
    crate::num::sqrt_floor((2_000_000 * target / a) as nat) as int
}

impl Polygon {
    /// Rescales this polygon (a freshly built one, denominator 1000) so its
    /// area matches `target` micro-square-units as closely as uniform scaling
    /// by a thousandth-step factor allows: the factor is
    /// `scale_quot(|csum|, target) / 1000`, so the achieved shoelace
    /// numerator `q^2 * |csum|` lies within the stated bracket of the target.
    /// Succeeds exactly when the polygon is not degenerate (nonzero area),
    /// the factor stays within `32`, and every scaled vertex fits the stored
    /// range; otherwise the polygon is left unchanged.
    pub fn scale_to_area(&mut self, target: i64) -> (ok: bool)
        requires
            old(self).wf(),
            old(self).den == 1000,
            1 <= target <= 200_000_000_000_000,
        ensures
            final (self).wf(),
            !ok ==> *final (self) == *old(self),
            ok ==> ({
                let q = scale_quot(abs_i(old(self).area2_spec()), target as int);
                &&& final (self).den == 1_000_000
                &&& sqrt_bracket(abs_i(old(self).area2_spec()), target as int, q)
                &&& q <= 32_000
                &&& final (self).verts() == crate::shoelace::scaled(old(self).verts(), q)
                &&& final (self).area2_spec() == q * q * old(self).area2_spec()
            }),
            ok <==> ({
                let q = scale_quot(abs_i(old(self).area2_spec()), target as int);
                &&& abs_i(old(self).area2_spec()) >= 1
                &&& q <= 32_000
                &&& forall|k: int|
                    0 <= k < old(self).pts@.len() ==> -(VERT_UNITS_MAX as int) * (old(self).den
                        * 1000) <= #[trigger] old(self).pts@[k].x * q <= (VERT_UNITS_MAX as int) * (
                    old(self).den * 1000) && -(VERT_UNITS_MAX as int) * (old(self).den * 1000)
                        <= old(self).pts@[k].y * q <= (VERT_UNITS_MAX as int) * (old(self).den
                        * 1000)
            }),
    {
        let av = self.area2();
        if av == 0 {
            return false;
        }
        let mq = div_floor(2_000_000 * (target as i128), av);
        proof {
            assert(0 <= 2_000_000 * (target as i128) <= 400_000_000_000_000_000_000i128);
            assert((400_000_000_000_000_000_000i128 as u128) < (1u128 << 96)) by (bit_vector);
        }
        let q = isqrt(mq as u128) as i128;
        proof {
            assert(q == scale_quot(av as int, target as int));
            lemma_fundamental_div_mod(2_000_000 * (target as int), av as int);
            assert(sqrt_bracket(av as int, target as int, q as int)) by (nonlinear_arith)
                requires
                    av >= 1,
                    (q as int) * (q as int) <= mq as int,
                    (mq as int) < ((q as int) + 1) * ((q as int) + 1),
                    2_000_000 * (target as int) == (av as int) * (mq as int) + 2_000_000 * (
                    target as int) % (av as int),
                    0 <= 2_000_000 * (target as int) % (av as int) < av as int,
                    q >= 0,
            ;
        }
        if q > 32_000 {
            return false;
        }
        let ghost oldself = *self;
        proof {
            assert(oldself.den * 1000 == 1_000_000) by (nonlinear_arith)
                requires
                    oldself.den == 1000,
            ;
        }
        let ok = self.scale(q as i64, 1000);
        proof {
            if ok {
                assert(abs_i(self.area2_spec()) == (q as int) * (q as int) * abs_i(
                    oldself.area2_spec(),
                )) by (nonlinear_arith)
                    requires
                        self.area2_spec() == (q as int) * (q as int) * oldself.area2_spec(),
                        q >= 0,
                ;
            }
        }
        ok
    }

    /// A random polygon: a drawn vertex count `n` in 3 to 11, vertices at
    /// angles `2 pi k / (n + 1)` (so the largest angle never reaches a full
    /// turn) with radii drawn uniformly from `[1, 15)` units, recentred by
    /// `Polygon::new` (`None` only for a degenerate draw).
    pub fn random() -> (r: Option<Polygon>)
        ensures
            match r {
                Option::Some(p) => p.wf() && p.den == MILLI && 4 <= p.pts@.len() <= 12
                    && from_random_draws(p),
                Option::None => true,
            },
    {
        let n: usize = 3 + crate::rng::rand_below(9) as usize;
        let mut xs: Vec<i64> = Vec::new();
        let mut ys: Vec<i64> = Vec::new();
        let mut k: usize = 0;
        let ghost mut rads: Seq<int> = Seq::empty();
        while k < n
            invariant
                0 <= k <= n,
                3 <= n <= 11,
                xs@.len() == k,
                ys@.len() == k,
                rads.len() == k,
                forall|m: int| 0 <= m < k ==> 1000 <= #[trigger] rads[m] < 15_000,
                forall|m: int|
                    0 <= m < k ==> (xs@[m] as int, ys@[m] as int) == #[trigger] random_vertex(
                        n as int,
                        m,
                        rads[m],
                    ),
                forall|m: int| 0 <= m < k ==> -15_000 <= #[trigger] xs@[m] <= 15_000,
                forall|m: int| 0 <= m < k ==> -15_000 <= #[trigger] ys@[m] <= 15_000,
            decreases n - k,
        {
            let phi = div_floor(6283 * (k as i128), (n as i128) + 1) as i64;
            let (s, c) = crate::trig::sin_cos_milli(phi);
            let rm: i64 = 1000 + 14 * crate::rng::rand_milli_unit();
            proof {
                lemma_mul_bounds(rm as int, c as int, 15_000, 1000);
                lemma_mul_bounds(rm as int, s as int, 15_000, 1000);
                assert(15_000 * 1000int == 15_000_000int) by (nonlinear_arith);
                assert(15_000 * 1000int == 15_000 * (1000int)) by (nonlinear_arith);
                crate::num::lemma_div_range((rm as int) * (c as int), 1000, 15_000);
                crate::num::lemma_div_range((rm as int) * (s as int), 1000, 15_000);
            }
            let x = crate::num::div_trunc((rm as i128) * (c as i128), 1000) as i64;
            let y = crate::num::div_trunc((rm as i128) * (s as i128), 1000) as i64;
            proof {
                assert((x as int, y as int) == random_vertex(n as int, k as int, rm as int));
            }
            xs.push(x);
            ys.push(y);
            proof {
                rads = rads.push(rm as int);
            }
            k = k + 1;
        }
        let ghost chain = random_chain(n as int, rads);
        proof {
            assert(in_pts(xs@, ys@) =~= chain);
        }
        let r = Polygon::new(xs, ys);
        proof {
            if r is Some {
                assert(from_random_draws(r->0));
            }
        }
        r
    }
}

/// The vertex a radius draw of `rad` milli-units yields at index `k` of an
/// `n`-vertex random polygon: the angle is `2 pi k / (n + 1)` in floored
/// milli-radians, the coordinates the radius times the crate's trig of it.
pub open spec fn random_vertex(n: int, k: int, rad: int) -> (int, int) {
    let phi = 6283 * k / (n + 1);
    (
        crate::num::tdiv(rad * crate::trig::cos_milli(phi), 1000),
        crate::num::tdiv(rad * crate::trig::sin_milli(phi), 1000),
    )
}

/// The whole vertex chain of an `n`-vertex random polygon with the given
/// radius draws.
pub open spec fn random_chain(n: int, radii: Seq<int>) -> Seq<(int, int)> {
    Seq::new(n as nat, |k: int| random_vertex(n, k, radii[k]))
}

/// The polygon is the recentred form of some random draw: a vertex count in
/// 3 to 11 and per-vertex radii in `[1, 15)` units whose chain `Polygon::new`
/// accepts.
pub open spec fn from_random_draws(p: Polygon) -> bool {
    exists|n: int, radii: Seq<int>|
        #![trigger random_chain(n, radii)]
        {
            let chain = random_chain(n, radii);
            &&& 3 <= n <= 11
            &&& radii.len() == n
            &&& (forall|k: int| 0 <= k < n ==> 1000 <= #[trigger] radii[k] < 15_000)
            &&& csum(chain.push(chain[0])) != 0
            &&& p.verts() == recentred(chain)
            &&& p.pts@.len() == n + 1
            &&& p.den == MILLI
        }
}

/// Absolute value.
pub open spec fn abs_i(x: int) -> int {
    if x < 0 {
        -x
    } else {
        x
    }
}

/// Step lemma for the prefix-sum loops: extending a prefix by one point adds
/// one shoelace term to each running sum.
proof fn lemma_take_step(s: Seq<(int, int)>, j: int)
    requires
        1 <= j < s.len(),
    ensures
        csum(s.take(j + 1)) == csum(s.take(j)) + cross(s[j - 1], s[j]),
        wxsum(s.take(j + 1)) == wxsum(s.take(j)) + cross(s[j - 1], s[j]) * (s[j - 1].0 + s[j].0),
        wysum(s.take(j + 1)) == wysum(s.take(j)) + cross(s[j - 1], s[j]) * (s[j - 1].1 + s[j].1),
{
    let t1 = s.take(j + 1);
    assert(t1.drop_last() =~= s.take(j));
    assert(t1[j - 1] == s[j - 1]);
    assert(t1[j] == s[j]);
}

/// Law: construction recentres exactly: for every input chain with nonzero
/// closed shoelace sum, the recentred loop keeps the closed shoelace sum
/// unchanged (area preservation, also an `ensures` of `Polygon::new`), and
/// its own shoelace centroid lies within one milli-unit of the origin: the
/// weighted sums of the output are the floor-division remainders of the
/// centroid computation, below `3 |csum|` in magnitude.
pub proof fn lemma_recentred_centroid(s: Seq<(int, int)>)
    requires
        s.len() >= 1,
        csum(s.push(s[0])) != 0,
    ensures
        csum(recentred(s)) == csum(s.push(s[0])),
        abs_i(wxsum(recentred(s))) < 3 * abs_i(csum(s.push(s[0]))),
        abs_i(wysum(recentred(s))) < 3 * abs_i(csum(s.push(s[0]))),
{
    let sc = s.push(s[0]);
    let t = (centroid_x_floor(s), centroid_y_floor(s));
    assert(sc[0] == sc.last());
    assert(recentred(s) =~= translated(sc, t));
    lemma_closed_translated(sc, t);
    let c = csum(sc);
    let wx = wxsum(sc);
    let wy = wysum(sc);
    let sct = translated(sc, t);
    // floor-division remainder bracketing
    if c > 0 {
        vstd::arithmetic::div_mod::lemma_fundamental_div_mod(wx, 3 * c);
        vstd::arithmetic::div_mod::lemma_fundamental_div_mod(wy, 3 * c);
        assert(0 <= wx % (3 * c) < 3 * c);
        assert(wx == 3 * c * (wx / (3 * c)) + wx % (3 * c));
        assert(wxsum(sct) == wx - 3 * t.0 * c);
        assert(3 * c * t.0 == 3 * t.0 * c) by (nonlinear_arith);
        assert(wysum(sct) == wy - 3 * t.1 * c);
        assert(3 * c * t.1 == 3 * t.1 * c) by (nonlinear_arith);
    } else {
        assert(c < 0);
        vstd::arithmetic::div_mod::lemma_fundamental_div_mod(-wx, 3 * -c);
        vstd::arithmetic::div_mod::lemma_fundamental_div_mod(-wy, 3 * -c);
        assert(0 <= (-wx) % (3 * -c) < 3 * -c);
        assert(-wx == 3 * -c * ((-wx) / (3 * -c)) + (-wx) % (3 * -c));
        assert(wxsum(sct) == wx - 3 * t.0 * c);
        assert(3 * -c * t.0 == -(3 * t.0 * c)) by (nonlinear_arith);
        assert(wysum(sct) == wy - 3 * t.1 * c);
        assert(3 * -c * t.1 == -(3 * t.1 * c)) by (nonlinear_arith);
    }
}

} // verus!
