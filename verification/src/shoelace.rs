//! Shoelace sums over sequences of integer points, with the algebraic facts
//! the geometry contracts rest on: how the sums behave under translation and
//! uniform scaling, and how large they can grow.
//!
//! A polygon vertex is modelled as a pair of integer coordinate numerators
//! over a common per-polygon denominator, so every lemma here is stated over
//! `Seq<(int, int)>`.

use vstd::arithmetic::mul::*;
use vstd::prelude::*;

verus! {

/// Cross product of two points, the per-edge term of the shoelace formula.
pub open spec fn cross(p: (int, int), q: (int, int)) -> int {
    p.0 * q.1 - q.0 * p.1
}

/// Sum of `cross` over consecutive pairs: twice the signed area swept by the
/// edges `s[0]..s[1]`, ..., `s[len-2]..s[len-1]` (no implicit closing edge).
pub open spec fn csum(s: Seq<(int, int)>) -> int
    decreases s.len(),
{
    if s.len() < 2 {
        0
    } else {
        csum(s.drop_last()) + cross(s[s.len() - 2], s[s.len() - 1])
    }
}

/// Weighted shoelace sum over x: the numerator of the centroid's x coordinate.
pub open spec fn wxsum(s: Seq<(int, int)>) -> int
    decreases s.len(),
{
    if s.len() < 2 {
        0
    } else {
        wxsum(s.drop_last()) + cross(s[s.len() - 2], s[s.len() - 1]) * (s[s.len() - 2].0 + s[
            s.len() - 1].0)
    }
}

/// Weighted shoelace sum over y: the numerator of the centroid's y coordinate.
pub open spec fn wysum(s: Seq<(int, int)>) -> int
    decreases s.len(),
{
    if s.len() < 2 {
        0
    } else {
        wysum(s.drop_last()) + cross(s[s.len() - 2], s[s.len() - 1]) * (s[s.len() - 2].1 + s[
            s.len() - 1].1)
    }
}

/// Every point shifted by `-t`.
pub open spec fn translated(s: Seq<(int, int)>, t: (int, int)) -> Seq<(int, int)> {
    s.map(|_i: int, p: (int, int)| (p.0 - t.0, p.1 - t.1))
}

/// Every point multiplied by `m`.
pub open spec fn scaled(s: Seq<(int, int)>, m: int) -> Seq<(int, int)> {
    s.map(|_i: int, p: (int, int)| (m * p.0, m * p.1))
}

proof fn lemma_translated_drop_last(s: Seq<(int, int)>, t: (int, int))
    requires
        s.len() >= 1,
    ensures
        translated(s, t).drop_last() == translated(s.drop_last(), t),
{
    assert(translated(s, t).drop_last() =~= translated(s.drop_last(), t));
}

proof fn lemma_scaled_drop_last(s: Seq<(int, int)>, m: int)
    requires
        s.len() >= 1,
    ensures
        scaled(s, m).drop_last() == scaled(s.drop_last(), m),
{
    assert(scaled(s, m).drop_last() =~= scaled(s.drop_last(), m));
}

/// Open shoelace sum under translation: only the boundary terms change.
pub proof fn lemma_csum_translated(s: Seq<(int, int)>, t: (int, int))
    requires
        s.len() >= 1,
    ensures
        csum(translated(s, t)) == csum(s) - t.1 * (s[0].0 - s.last().0) - t.0 * (s.last().1
            - s[0].1),
    decreases s.len(),
{
    let st = translated(s, t);
    if s.len() == 1 {
        assert(csum(st) == 0);
        assert(t.1 * (s[0].0 - s.last().0) == 0 && t.0 * (s.last().1 - s[0].1) == 0)
            by (nonlinear_arith)
            requires
                s[0] == s.last(),
        ;
    } else {
        let s0 = s.drop_last();
        lemma_csum_translated(s0, t);
        lemma_translated_drop_last(s, t);
        let f = s[0];
        let l = s0.last();
        let p = s.last();
        assert(s0[0] == f);
        assert(st.last() == (p.0 - t.0, p.1 - t.1));
        assert(st[st.len() - 2] == (l.0 - t.0, l.1 - t.1));
        // per-edge expansion of the translated cross term
        assert((l.0 - t.0) * (p.1 - t.1) - (p.0 - t.0) * (l.1 - t.1) == (l.0 * p.1 - p.0 * l.1)
            - t.1 * (l.0 - p.0) - t.0 * (p.1 - l.1)) by (nonlinear_arith);
        // regroup the boundary terms
        assert(t.1 * (f.0 - l.0) + t.1 * (l.0 - p.0) == t.1 * (f.0 - p.0)) by (nonlinear_arith);
        assert(t.0 * (l.1 - f.1) + t.0 * (p.1 - l.1) == t.0 * (p.1 - f.1)) by (nonlinear_arith);
    }
}

/// Open shoelace sum under uniform scaling: the sum scales with `m * m`.
pub proof fn lemma_csum_scaled(s: Seq<(int, int)>, m: int)
    ensures
        csum(scaled(s, m)) == m * m * csum(s),
    decreases s.len(),
{
    let sm = scaled(s, m);
    if s.len() < 2 {
        assert(csum(sm) == 0);
        assert(m * m * 0 == 0) by (nonlinear_arith);
    } else {
        let s0 = s.drop_last();
        lemma_csum_scaled(s0, m);
        lemma_scaled_drop_last(s, m);
        let l = s0.last();
        let p = s.last();
        assert(sm.last() == (m * p.0, m * p.1));
        assert(sm[sm.len() - 2] == (m * l.0, m * l.1));
        assert((m * l.0) * (m * p.1) == m * m * (l.0 * p.1)) by (nonlinear_arith);
        assert((m * p.0) * (m * l.1) == m * m * (p.0 * l.1)) by (nonlinear_arith);
        assert(m * m * (l.0 * p.1) - m * m * (p.0 * l.1) == m * m * (l.0 * p.1 - p.0 * l.1))
            by (nonlinear_arith);
        assert(m * m * csum(s0) + m * m * cross(l, p) == m * m * (csum(s0) + cross(l, p)))
            by (nonlinear_arith);
    }
}

proof fn lemma_trinomial_x(u: int, v: int, w: int, g: int, tx: int, ty: int)
    ensures
        (u - ty * v - tx * w) * (g - 2 * tx) == u * g - 2 * tx * u - ty * (v * g) + 2 * tx * ty * v
            - tx * (w * g) + 2 * tx * tx * w,
{
    let a = u - ty * v - tx * w;
    let d = 2 * tx;
    lemma_mul_is_distributive_sub(a, g, d);
    lemma_mul_is_distributive_sub_other_way(g, u - ty * v, tx * w);
    lemma_mul_is_distributive_sub_other_way(g, u, ty * v);
    lemma_mul_is_associative(ty, v, g);
    lemma_mul_is_associative(tx, w, g);
    lemma_mul_is_distributive_sub_other_way(d, u - ty * v, tx * w);
    lemma_mul_is_distributive_sub_other_way(d, u, ty * v);
    lemma_mul_is_commutative(u, d);
    lemma_mul_is_commutative(ty * v, d);
    lemma_mul_is_associative(d, ty, v);
    lemma_mul_is_commutative(tx * w, d);
    lemma_mul_is_associative(d, tx, w);
}

proof fn lemma_trinomial_y(u: int, v: int, w: int, h: int, tx: int, ty: int)
    ensures
        (u - ty * v - tx * w) * (h - 2 * ty) == u * h - 2 * ty * u - ty * (v * h) + 2 * ty * ty * v
            - tx * (w * h) + 2 * tx * ty * w,
{
    let a = u - ty * v - tx * w;
    let e = 2 * ty;
    lemma_mul_is_distributive_sub(a, h, e);
    lemma_mul_is_distributive_sub_other_way(h, u - ty * v, tx * w);
    lemma_mul_is_distributive_sub_other_way(h, u, ty * v);
    lemma_mul_is_associative(ty, v, h);
    lemma_mul_is_associative(tx, w, h);
    lemma_mul_is_distributive_sub_other_way(e, u - ty * v, tx * w);
    lemma_mul_is_distributive_sub_other_way(e, u, ty * v);
    lemma_mul_is_commutative(u, e);
    lemma_mul_is_commutative(ty * v, e);
    lemma_mul_is_associative(e, ty, v);
    lemma_mul_is_commutative(tx * w, e);
    lemma_mul_is_associative(e, tx, w);
    assert((2 * ty) * tx == (2 * tx) * ty) by (nonlinear_arith);
    lemma_mul_is_associative(2 * ty, tx, w);
    lemma_mul_is_associative(2 * tx, ty, w);
}

proof fn lemma_wx_edge_expand(l0: int, l1: int, p0: int, p1: int, tx: int, ty: int)
    ensures
        ((l0 - tx) * (p1 - ty) - (p0 - tx) * (l1 - ty)) * ((l0 - tx) + (p0 - tx)) == (l0 * p1 - p0
            * l1) * (l0 + p0) - 2 * tx * (l0 * p1 - p0 * l1) + ty * (p0 * p0 - l0 * l0) + 2 * tx
            * ty * (l0 - p0) - tx * (l0 * p1 - p0 * l1) - tx * (p0 * p1 - l0 * l1) + 2 * tx * tx
            * (p1 - l1),
{
    let u = l0 * p1 - p0 * l1;
    let v = l0 - p0;
    let w = p1 - l1;
    let g = l0 + p0;
    assert((l0 - tx) * (p1 - ty) - (p0 - tx) * (l1 - ty) == u - ty * v - tx * w)
        by (nonlinear_arith)
        requires
            u == l0 * p1 - p0 * l1,
            v == l0 - p0,
            w == p1 - l1,
    ;
    lemma_trinomial_x(u, v, w, g, tx, ty);
    assert(v * g == l0 * l0 - p0 * p0) by (nonlinear_arith)
        requires
            v == l0 - p0,
            g == l0 + p0,
    ;
    assert(w * g == (l0 * p1 - p0 * l1) + (p0 * p1 - l0 * l1)) by (nonlinear_arith)
        requires
            w == p1 - l1,
            g == l0 + p0,
    ;
    assert(ty * (l0 * l0 - p0 * p0) == -(ty * (p0 * p0 - l0 * l0))) by (nonlinear_arith);
    assert(tx * ((l0 * p1 - p0 * l1) + (p0 * p1 - l0 * l1)) == tx * (l0 * p1 - p0 * l1) + tx * (p0
        * p1 - l0 * l1)) by (nonlinear_arith);
}

proof fn lemma_wy_edge_expand(l0: int, l1: int, p0: int, p1: int, tx: int, ty: int)
    ensures
        ((l0 - tx) * (p1 - ty) - (p0 - tx) * (l1 - ty)) * ((l1 - ty) + (p1 - ty)) == (l0 * p1 - p0
            * l1) * (l1 + p1) - 2 * ty * (l0 * p1 - p0 * l1) - ty * (l0 * p1 - p0 * l1) + ty * (p0
            * p1 - l0 * l1) + 2 * ty * ty * (l0 - p0) - tx * (p1 * p1 - l1 * l1) + 2 * tx * ty * (
        p1 - l1),
{
    let u = l0 * p1 - p0 * l1;
    let v = l0 - p0;
    let w = p1 - l1;
    let h = l1 + p1;
    assert((l0 - tx) * (p1 - ty) - (p0 - tx) * (l1 - ty) == u - ty * v - tx * w)
        by (nonlinear_arith)
        requires
            u == l0 * p1 - p0 * l1,
            v == l0 - p0,
            w == p1 - l1,
    ;
    lemma_trinomial_y(u, v, w, h, tx, ty);
    assert(v * h == u - (p0 * p1 - l0 * l1)) by (nonlinear_arith)
        requires
            u == l0 * p1 - p0 * l1,
            v == l0 - p0,
            h == l1 + p1,
    ;
    assert(w * h == p1 * p1 - l1 * l1) by (nonlinear_arith)
        requires
            w == p1 - l1,
            h == l1 + p1,
    ;
    assert(ty * (u - (p0 * p1 - l0 * l1)) == ty * u - ty * (p0 * p1 - l0 * l1))
        by (nonlinear_arith);
}

/// Weighted x shoelace sum under translation, for an arbitrary open chain.
pub proof fn lemma_wxsum_translated(s: Seq<(int, int)>, t: (int, int))
    requires
        s.len() >= 1,
    ensures
        wxsum(translated(s, t)) == wxsum(s) - 2 * t.0 * csum(s) - t.1 * (s[0].0 * s[0].0
            - s.last().0 * s.last().0) + 2 * t.0 * t.1 * (s[0].0 - s.last().0) - t.0 * (csum(s)
            + (s.last().0 * s.last().1 - s[0].0 * s[0].1)) + 2 * t.0 * t.0 * (s.last().1 - s[0].1),
    decreases s.len(),
{
    let st = translated(s, t);
    let tx = t.0;
    let ty = t.1;
    let f0 = s[0].0;
    let f1 = s[0].1;
    if s.len() == 1 {
        assert(wxsum(st) == 0);
        assert(2 * tx * 0 == 0 && ty * (f0 * f0 - f0 * f0) == 0 && 2 * tx * ty * (f0 - f0) == 0
            && tx * (0 + (f0 * f1 - f0 * f1)) == 0 && 2 * tx * tx * (f1 - f1) == 0)
            by (nonlinear_arith);
    } else {
        let s0 = s.drop_last();
        lemma_wxsum_translated(s0, t);
        lemma_csum_translated(s0, t);
        lemma_translated_drop_last(s, t);
        let l0 = s0.last().0;
        let l1 = s0.last().1;
        let p0 = s.last().0;
        let p1 = s.last().1;
        let cr = cross(s0.last(), s.last());
        let c0 = csum(s0);
        assert(s0[0] == s[0]);
        assert(st.last() == (p0 - tx, p1 - ty));
        assert(st[st.len() - 2] == (l0 - tx, l1 - ty));
        assert(cr == l0 * p1 - p0 * l1);
        // the translated closing edge, fully expanded
        lemma_wx_edge_expand(l0, l1, p0, p1, tx, ty);
        // regroup each term of the formula
        assert(2 * tx * c0 + 2 * tx * cr == 2 * tx * (c0 + cr)) by (nonlinear_arith);
        assert(ty * (f0 * f0 - l0 * l0) - ty * (p0 * p0 - l0 * l0) == ty * (f0 * f0 - p0 * p0))
            by (nonlinear_arith);
        assert(2 * tx * ty * (f0 - l0) + 2 * tx * ty * (l0 - p0) == 2 * tx * ty * (f0 - p0))
            by (nonlinear_arith);
        assert(tx * (c0 + (l0 * l1 - f0 * f1)) + tx * cr + tx * (p0 * p1 - l0 * l1) == tx * ((c0
            + cr) + (p0 * p1 - f0 * f1))) by (nonlinear_arith);
        assert(2 * tx * tx * (l1 - f1) + 2 * tx * tx * (p1 - l1) == 2 * tx * tx * (p1 - f1))
            by (nonlinear_arith);
        assert(csum(s) == c0 + cr);
    }
}

/// Weighted y shoelace sum under translation, for an arbitrary open chain.
pub proof fn lemma_wysum_translated(s: Seq<(int, int)>, t: (int, int))
    requires
        s.len() >= 1,
    ensures
        wysum(translated(s, t)) == wysum(s) - 2 * t.1 * csum(s) - t.1 * (csum(s) + (s[0].0 * s[0].1
            - s.last().0 * s.last().1)) + 2 * t.1 * t.1 * (s[0].0 - s.last().0) - t.0 * (s.last().1
            * s.last().1 - s[0].1 * s[0].1) + 2 * t.0 * t.1 * (s.last().1 - s[0].1),
    decreases s.len(),
{
    let st = translated(s, t);
    let tx = t.0;
    let ty = t.1;
    let f0 = s[0].0;
    let f1 = s[0].1;
    if s.len() == 1 {
        assert(wysum(st) == 0);
        assert(2 * ty * 0 == 0 && ty * (0 + (f0 * f1 - f0 * f1)) == 0 && 2 * ty * ty * (f0 - f0)
            == 0 && tx * (f1 * f1 - f1 * f1) == 0 && 2 * tx * ty * (f1 - f1) == 0)
            by (nonlinear_arith);
    } else {
        let s0 = s.drop_last();
        lemma_wysum_translated(s0, t);
        lemma_csum_translated(s0, t);
        lemma_translated_drop_last(s, t);
        let l0 = s0.last().0;
        let l1 = s0.last().1;
        let p0 = s.last().0;
        let p1 = s.last().1;
        let cr = cross(s0.last(), s.last());
        let c0 = csum(s0);
        assert(s0[0] == s[0]);
        assert(st.last() == (p0 - tx, p1 - ty));
        assert(st[st.len() - 2] == (l0 - tx, l1 - ty));
        assert(cr == l0 * p1 - p0 * l1);
        // the translated closing edge, fully expanded
        lemma_wy_edge_expand(l0, l1, p0, p1, tx, ty);
        // regroup each term of the formula
        assert(2 * ty * c0 + 2 * ty * cr == 2 * ty * (c0 + cr)) by (nonlinear_arith);
        assert(ty * (c0 + (f0 * f1 - l0 * l1)) + ty * cr - ty * (p0 * p1 - l0 * l1) == ty * ((c0
            + cr) + (f0 * f1 - p0 * p1))) by (nonlinear_arith);
        assert(2 * ty * ty * (f0 - l0) + 2 * ty * ty * (l0 - p0) == 2 * ty * ty * (f0 - p0))
            by (nonlinear_arith);
        assert(tx * (l1 * l1 - f1 * f1) + tx * (p1 * p1 - l1 * l1) == tx * (p1 * p1 - f1 * f1))
            by (nonlinear_arith);
        assert(2 * tx * ty * (l1 - f1) + 2 * tx * ty * (p1 - l1) == 2 * tx * ty * (p1 - f1))
            by (nonlinear_arith);
        assert(csum(s) == c0 + cr);
    }
}

/// For a closed loop (`first == last`), translation leaves the shoelace sum
/// unchanged and shifts each weighted sum by three times the translation
/// component times the shoelace sum: exactly the covariance the centroid
/// formula (denominator `3 * csum`) needs.
pub proof fn lemma_closed_translated(s: Seq<(int, int)>, t: (int, int))
    requires
        s.len() >= 1,
        s[0] == s.last(),
    ensures
        csum(translated(s, t)) == csum(s),
        wxsum(translated(s, t)) == wxsum(s) - 3 * t.0 * csum(s),
        wysum(translated(s, t)) == wysum(s) - 3 * t.1 * csum(s),
{
    lemma_csum_translated(s, t);
    lemma_wxsum_translated(s, t);
    lemma_wysum_translated(s, t);
    let c = csum(s);
    let tx = t.0;
    let ty = t.1;
    assert(t.1 * (s[0].0 - s.last().0) == 0 && t.0 * (s.last().1 - s[0].1) == 0)
        by (nonlinear_arith)
        requires
            s[0] == s.last(),
    ;
    assert(2 * tx * c + tx * (c + 0) == 3 * tx * c) by (nonlinear_arith);
    assert(2 * ty * c + ty * (c + 0) == 3 * ty * c) by (nonlinear_arith);
    let f0 = s[0].0;
    let f1 = s[0].1;
    assert(ty * (f0 * f0 - f0 * f0) == 0 && 2 * tx * ty * (f0 - f0) == 0 && tx * (c + (f0 * f1 - f0
        * f1)) == tx * (c + 0) && 2 * tx * tx * (f1 - f1) == 0) by (nonlinear_arith);
    assert(ty * (c + (f0 * f1 - f0 * f1)) == ty * (c + 0) && 2 * ty * ty * (f0 - f0) == 0 && tx * (
    f1 * f1 - f1 * f1) == 0 && 2 * tx * ty * (f1 - f1) == 0) by (nonlinear_arith);
}

/// Coordinate bound for every point of `s`.
pub open spec fn points_bounded(s: Seq<(int, int)>, b: int) -> bool {
    forall|k: int| 0 <= k < s.len() ==> -b <= #[trigger] s[k].0 <= b && -b <= s[k].1 <= b
}

/// The open shoelace sum of a bounded sequence is bounded.
pub proof fn lemma_csum_bound(s: Seq<(int, int)>, b: int)
    requires
        b >= 0,
        points_bounded(s, b),
    ensures
        -2 * b * b * (s.len() as int) <= csum(s) <= 2 * b * b * (s.len() as int),
    decreases s.len(),
{
    if s.len() < 2 {
        assert(-2 * b * b * (s.len() as int) <= 0 <= 2 * b * b * (s.len() as int))
            by (nonlinear_arith)
            requires
                b >= 0,
                s.len() >= 0,
        ;
    } else {
        let s0 = s.drop_last();
        assert(points_bounded(s0, b));
        lemma_csum_bound(s0, b);
        let l = s0.last();
        let p = s.last();
        assert(-2 * b * b <= l.0 * p.1 - p.0 * l.1 <= 2 * b * b) by (nonlinear_arith)
            requires
                -b <= l.0 <= b && -b <= l.1 <= b && -b <= p.0 <= b && -b <= p.1 <= b,
        ;
        assert(-2 * b * b * (s.len() as int) <= csum(s0) + cross(l, p) <= 2 * b * b * (
        s.len() as int)) by (nonlinear_arith)
            requires
                s.len() == s0.len() + 1,
                s0.len() >= 0,
                b >= 0,
                -2 * b * b * (s0.len() as int) <= csum(s0) <= 2 * b * b * (s0.len() as int),
                -2 * b * b <= cross(l, p) <= 2 * b * b,
        ;
    }
}

/// The weighted shoelace sums of a bounded sequence are bounded.
pub proof fn lemma_wsum_bound(s: Seq<(int, int)>, b: int)
    requires
        b >= 0,
        points_bounded(s, b),
    ensures
        -4 * b * b * b * (s.len() as int) <= wxsum(s) <= 4 * b * b * b * (s.len() as int),
        -4 * b * b * b * (s.len() as int) <= wysum(s) <= 4 * b * b * b * (s.len() as int),
    decreases s.len(),
{
    if s.len() < 2 {
        assert(-4 * b * b * b * (s.len() as int) <= 0 <= 4 * b * b * b * (s.len() as int))
            by (nonlinear_arith)
            requires
                b >= 0,
                s.len() >= 0,
        ;
    } else {
        let s0 = s.drop_last();
        assert(points_bounded(s0, b));
        lemma_wsum_bound(s0, b);
        let l = s0.last();
        let p = s.last();
        assert(-4 * b * b * b <= (l.0 * p.1 - p.0 * l.1) * (l.0 + p.0) <= 4 * b * b * b && -4 * b
            * b * b <= (l.0 * p.1 - p.0 * l.1) * (l.1 + p.1) <= 4 * b * b * b) by (nonlinear_arith)
            requires
                -b <= l.0 <= b && -b <= l.1 <= b && -b <= p.0 <= b && -b <= p.1 <= b,
        ;
        assert(-4 * b * b * b * (s.len() as int) <= wxsum(s0) + cross(l, p) * (l.0 + p.0) <= 4 * b
            * b * b * (s.len() as int) && -4 * b * b * b * (s.len() as int) <= wysum(s0) + cross(
            l,
            p,
        ) * (l.1 + p.1) <= 4 * b * b * b * (s.len() as int)) by (nonlinear_arith)
            requires
                s.len() == s0.len() + 1,
                s0.len() >= 0,
                b >= 0,
                -4 * b * b * b * (s0.len() as int) <= wxsum(s0) <= 4 * b * b * b * (
                s0.len() as int),
                -4 * b * b * b * (s0.len() as int) <= wysum(s0) <= 4 * b * b * b * (
                s0.len() as int),
                cross(l, p) == l.0 * p.1 - p.0 * l.1,
                -4 * b * b * b <= (l.0 * p.1 - p.0 * l.1) * (l.0 + p.0) <= 4 * b * b * b,
                -4 * b * b * b <= (l.0 * p.1 - p.0 * l.1) * (l.1 + p.1) <= 4 * b * b * b,
        ;
    }
}

} // verus!
