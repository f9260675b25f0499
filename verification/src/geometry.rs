//! Exact sign reasoning for the gift wrap march: polynomial identities of
//! plane vectors, proved by explicit monomial expansion, and the one step
//! lemma of the candidate scan.

use vstd::prelude::*;

verus! {

/// Distributing a product of two differences into monomials.
proof fn lemma_mul_expand(x: int, y: int, z: int, w: int)
    ensures
        (x - y) * (z - w) == x * z - x * w - y * z + y * w,
        (x + y) * (z + w) == x * z + x * w + y * z + y * w,
        (x + y) * (z - w) == x * z - x * w + y * z - y * w,
        (x - y) * (z + w) == x * z + x * w - y * z - y * w,
{
    assert((x - y) * (z - w) == x * z - x * w - y * z + y * w) by (nonlinear_arith);
    assert((x + y) * (z + w) == x * z + x * w + y * z + y * w) by (nonlinear_arith);
    assert((x + y) * (z - w) == x * z - x * w + y * z - y * w) by (nonlinear_arith);
    assert((x - y) * (z + w) == x * z + x * w - y * z - y * w) by (nonlinear_arith);
}

/// Grassmann-Pluecker relation of four plane vectors: how the cross
/// products of `u`, `v`, `w` among themselves and against `d` balance.
proof fn lemma_gp(dx: int, dy: int, ux: int, uy: int, vx: int, vy: int, wx: int, wy: int)
    ensures
        (ux * vy - uy * vx) * (dx * wy - dy * wx) + (vx * wy - vy * wx) * (dx * uy - dy * ux) == (
        ux * wy - uy * wx) * (dx * vy - dy * vx),
{
    lemma_mul_expand(ux * vy, uy * vx, dx * wy, dy * wx);
    lemma_mul_expand(vx * wy, vy * wx, dx * uy, dy * ux);
    lemma_mul_expand(ux * wy, uy * wx, dx * vy, dy * vx);
    assert((ux * vy) * (dx * wy) == (ux * wy) * (dx * vy)) by (nonlinear_arith);
    assert((uy * vx) * (dx * wy) == (vx * wy) * (dx * uy)) by (nonlinear_arith);
    assert((vx * wy) * (dy * ux) == (ux * wy) * (dy * vx)) by (nonlinear_arith);
    assert((vy * wx) * (dy * ux) == (ux * vy) * (dy * wx)) by (nonlinear_arith);
    assert((vy * wx) * (dx * uy) == (uy * wx) * (dx * vy)) by (nonlinear_arith);
    assert((uy * vx) * (dy * wx) == (uy * wx) * (dy * vx)) by (nonlinear_arith);
}

/// Projection relation: the cross product of `u` with `v`, scaled by the
/// squared length of `d`, from components of `u` and `v` along and
/// across `d`.
proof fn lemma_proj(dx: int, dy: int, ux: int, uy: int, vx: int, vy: int)
    ensures
        (ux * vy - uy * vx) * (dx * dx + dy * dy) == (ux * dx + uy * dy) * (dx * vy - dy * vx) - (
        dx * uy - dy * ux) * (vx * dx + vy * dy),
{
    lemma_mul_expand(ux * vy, uy * vx, dx * dx, dy * dy);
    lemma_mul_expand(ux * dx, uy * dy, dx * vy, dy * vx);
    lemma_mul_expand(dx * uy, dy * ux, vx * dx, vy * dy);
    assert((ux * dx) * (dx * vy) == (ux * vy) * (dx * dx)) by (nonlinear_arith);
    assert((uy * dy) * (dy * vx) == (uy * vx) * (dy * dy)) by (nonlinear_arith);
    assert((dx * uy) * (vx * dx) == (uy * vx) * (dx * dx)) by (nonlinear_arith);
    assert((dy * ux) * (vy * dy) == (ux * vy) * (dy * dy)) by (nonlinear_arith);
    assert((ux * dx) * (dy * vx) == (dy * ux) * (vx * dx)) by (nonlinear_arith);
    assert((uy * dy) * (dx * vy) == (dx * uy) * (vy * dy)) by (nonlinear_arith);
}

/// Lagrange's identity in the plane: the dot and cross of two vectors
/// against their squared lengths.
pub proof fn lemma_lagrange(ux: int, uy: int, wx: int, wy: int)
    ensures
        (ux * wx + uy * wy) * (ux * wx + uy * wy) + (ux * wy - uy * wx) * (ux * wy - uy * wx) == (
        ux * ux + uy * uy) * (wx * wx + wy * wy),
{
    lemma_mul_expand(ux * wx, uy * wy, ux * wx, uy * wy);
    lemma_mul_expand(ux * wy, uy * wx, ux * wy, uy * wx);
    lemma_mul_expand(ux * ux, uy * uy, wx * wx, wy * wy);
    assert((ux * wx) * (uy * wy) == (ux * wy) * (uy * wx)) by (nonlinear_arith);
    assert((ux * wx) * (ux * wx) == (ux * ux) * (wx * wx)) by (nonlinear_arith);
    assert((uy * wy) * (uy * wy) == (uy * uy) * (wy * wy)) by (nonlinear_arith);
    assert((ux * wy) * (ux * wy) == (ux * ux) * (wy * wy)) by (nonlinear_arith);
    assert((uy * wx) * (uy * wx) == (uy * uy) * (wx * wx)) by (nonlinear_arith);
}

/// Dot-product relation: the dot of `u` with `v`, scaled by the squared
/// length of `d`, from their components along and across `d`.
proof fn lemma_dot_split(dx: int, dy: int, ux: int, uy: int, vx: int, vy: int)
    ensures
        (ux * vx + uy * vy) * (dx * dx + dy * dy) == (ux * dx + uy * dy) * (vx * dx + vy * dy) + (
        dx * uy - dy * ux) * (dx * vy - dy * vx),
{
    lemma_mul_expand(ux * vx, uy * vy, dx * dx, dy * dy);
    lemma_mul_expand(ux * dx, uy * dy, vx * dx, vy * dy);
    lemma_mul_expand(dx * uy, dy * ux, dx * vy, dy * vx);
    assert((ux * dx) * (vx * dx) == (ux * vx) * (dx * dx)) by (nonlinear_arith);
    assert((uy * dy) * (vy * dy) == (uy * vy) * (dy * dy)) by (nonlinear_arith);
    assert((dx * uy) * (dx * vy) == (uy * vy) * (dx * dx)) by (nonlinear_arith);
    assert((dy * ux) * (dy * vx) == (ux * vx) * (dy * dy)) by (nonlinear_arith);
    assert((ux * dx) * (vy * dy) == (dy * ux) * (dx * vy)) by (nonlinear_arith);
    assert((uy * dy) * (vx * dx) == (dx * uy) * (dy * vx)) by (nonlinear_arith);
}


/// One replacement step of the gift wrap candidate scan keeps every
/// already-scanned point beaten, as long as all offsets from the current
/// vertex lie in one closed half-plane of `d` and offsets on its boundary
/// line all point one way: backwards when `ahead_banned`, else forwards.
/// `u` is the offset of the beaten candidate, `v` of its replacement, `w`
/// of an already-scanned point; "`a` beats `b`" is "`b` strictly right of
/// the ray along `a`, or on it and farther out".
pub proof fn lemma_scan_step(
    dx: int,
    dy: int,
    ux: int,
    uy: int,
    vx: int,
    vy: int,
    wx: int,
    wy: int,
    ahead_banned: bool,
)
    requires
        dx != 0 || dy != 0,
        ux != 0 || uy != 0,
        vx != 0 || vy != 0,
        dx * uy - dy * ux >= 0,
        dx * vy - dy * vx >= 0,
        dx * wy - dy * wx >= 0,
        ahead_banned ==> (dx * uy - dy * ux == 0 ==> ux * dx + uy * dy <= 0),
        ahead_banned ==> (dx * vy - dy * vx == 0 ==> vx * dx + vy * dy <= 0),
        ahead_banned ==> (dx * wy - dy * wx == 0 ==> wx * dx + wy * dy <= 0),
        !ahead_banned ==> (dx * uy - dy * ux == 0 ==> ux * dx + uy * dy >= 0),
        !ahead_banned ==> (dx * vy - dy * vx == 0 ==> vx * dx + vy * dy >= 0),
        !ahead_banned ==> (dx * wy - dy * wx == 0 ==> wx * dx + wy * dy >= 0),
        ux * wy - uy * wx > 0 || (ux * wy - uy * wx == 0 && wx * wx + wy * wy <= ux * ux + uy
            * uy),
        ux * vy - uy * vx < 0 || (ux * vy - uy * vx == 0 && vx * vx + vy * vy > ux * ux + uy
            * uy),
    ensures
        vx * wy - vy * wx > 0 || (vx * wy - vy * wx == 0 && wx * wx + wy * wy <= vx * vx + vy
            * vy),
{
    let dd = dx * dx + dy * dy;
    let cuv = ux * vy - uy * vx;
    let cuw = ux * wy - uy * wx;
    let cvw = vx * wy - vy * wx;
    let du = dx * uy - dy * ux;
    let dv = dx * vy - dy * vx;
    let dw = dx * wy - dy * wx;
    let ud = ux * dx + uy * dy;
    let vd = vx * dx + vy * dy;
    let wd = wx * dx + wy * dy;
    let uu = ux * ux + uy * uy;
    let vv = vx * vx + vy * vy;
    let ww = wx * wx + wy * wy;
    assert(dd > 0) by (nonlinear_arith)
        requires
            dx != 0 || dy != 0,
            dd == dx * dx + dy * dy,
    ;
    assert(uu > 0) by (nonlinear_arith)
        requires
            ux != 0 || uy != 0,
            uu == ux * ux + uy * uy,
    ;
    assert(vv > 0) by (nonlinear_arith)
        requires
            vx != 0 || vy != 0,
            vv == vx * vx + vy * vy,
    ;
    assert(ww >= 0) by (nonlinear_arith)
        requires
            ww == wx * wx + wy * wy,
    ;
    if cuv < 0 {
        if du > 0 {
            lemma_gp(dx, dy, ux, uy, vx, vy, wx, wy);
            assert(cuv * dw + cvw * du == cuw * dv);
            assert(cvw * du >= 0) by (nonlinear_arith)
                requires
                    cuv * dw + cvw * du == cuw * dv,
                    cuw >= 0,
                    dv >= 0,
                    cuv < 0,
                    dw >= 0,
            ;
            assert(cvw >= 0) by (nonlinear_arith)
                requires
                    cvw * du >= 0,
                    du > 0,
            ;
            if cvw == 0 {
                // Both remainders of the relation vanish: w sits on the
                // boundary line of d, and is zero or leads to a clash.
                assert(cuw * dv == 0 && cuv * dw == 0) by (nonlinear_arith)
                    requires
                        cuv * dw + cvw * du == cuw * dv,
                        cvw == 0,
                        cuw >= 0,
                        dv >= 0,
                        cuv < 0,
                        dw >= 0,
                ;
                assert(dw == 0) by (nonlinear_arith)
                    requires
                        cuv * dw == 0,
                        cuv < 0,
                ;
                if wx == 0 && wy == 0 {
                    assert(ww <= vv) by (nonlinear_arith)
                        requires
                            wx == 0 && wy == 0,
                            ww == wx * wx + wy * wy,
                            vv > 0,
                    ;
                } else {
                    // w is a nonzero boundary vector. Since v x w == 0,
                    // v is on the boundary too; but then v could not have
                    // beaten u strictly from inside the half-plane.
                    lemma_proj(dx, dy, wx, wy, vx, vy);
                    assert((wx * vy - wy * vx) * dd == wd * dv) by {
                        assert(dx * wy - dy * wx == 0);
                    }
                    assert(wd != 0) by (nonlinear_arith)
                        requires
                            dx * wy - dy * wx == 0,
                            wx != 0 || wy != 0,
                            dx != 0 || dy != 0,
                            wd == wx * dx + wy * dy,
                    ;
                    assert(wx * vy - wy * vx == 0) by (nonlinear_arith)
                        requires
                            cvw == 0,
                            cvw == vx * wy - vy * wx,
                            wx * vy - wy * vx == 0 - (vx * wy - vy * wx),
                    ;
                    assert(wd * dv == 0) by (nonlinear_arith)
                        requires
                            (wx * vy - wy * vx) * dd == wd * dv,
                            wx * vy - wy * vx == 0,
                            dd > 0,
                    ;
                    assert(dv == 0) by (nonlinear_arith)
                        requires
                            wd * dv == 0,
                            wd != 0,
                    ;
                    lemma_proj(dx, dy, vx, vy, ux, uy);
                    assert((vx * uy - vy * ux) * dd == vd * du) by {
                        assert(dx * vy - dy * vx == 0);
                    }
                    assert(vd * du > 0) by (nonlinear_arith)
                        requires
                            (vx * uy - vy * ux) * dd == vd * du,
                            vx * uy - vy * ux == 0 - cuv,
                            cuv < 0,
                            dd > 0,
                    ;
                    assert(vd > 0) by (nonlinear_arith)
                        requires
                            vd * du > 0,
                            du > 0,
                    ;
                    if ahead_banned {
                        assert(false);
                    } else {
                        // v ahead on the boundary is allowed here, but
                        // then w, also on the boundary and ahead, was
                        // strictly right of u: against the scan record.
                        assert(wd > 0) by (nonlinear_arith)
                            requires
                                dx * wy - dy * wx == 0,
                                wx * dx + wy * dy >= 0,
                                wd == wx * dx + wy * dy,
                                wd != 0,
                        ;
                        lemma_proj(dx, dy, wx, wy, ux, uy);
                        assert((wx * uy - wy * ux) * dd == wd * du) by {
                            assert(dx * wy - dy * wx == 0);
                        }
                        assert(wx * uy - wy * ux > 0) by (nonlinear_arith)
                            requires
                                (wx * uy - wy * ux) * dd == wd * du,
                                wd > 0,
                                du > 0,
                                dd > 0,
                        ;
                        assert(cuw < 0) by (nonlinear_arith)
                            requires
                                cuw == ux * wy - uy * wx,
                                wx * uy - wy * ux > 0,
                                cuw == 0 - (wx * uy - wy * ux),
                        ;
                        assert(false);
                    }
                }
            }
        } else {
            // The beaten candidate u lies on the boundary line itself.
            assert(du == 0);
            lemma_proj(dx, dy, ux, uy, vx, vy);
            assert(cuv * dd == ud * dv) by {
                assert(dx * uy - dy * ux == 0);
            }
            assert(ud != 0) by (nonlinear_arith)
                requires
                    dx * uy - dy * ux == 0,
                    ux != 0 || uy != 0,
                    dx != 0 || dy != 0,
                    ud == ux * dx + uy * dy,
            ;
            if !ahead_banned {
                // u ahead along d: nothing in the half-plane lies
                // strictly to its right, so v could not have beaten it.
                assert(ud > 0);
                assert(false) by (nonlinear_arith)
                    requires
                        cuv * dd == ud * dv,
                        cuv < 0,
                        ud > 0,
                        dv >= 0,
                        dd > 0,
                ;
            } else {
                // u points back along d: every already-scanned point sits
                // on the boundary too, behind or at the corner, and stays
                // beaten by the replacement v.
                assert(ud < 0);
                lemma_proj(dx, dy, ux, uy, wx, wy);
                assert(cuw * dd == ud * dw) by {
                    assert(dx * uy - dy * ux == 0);
                }
                assert(cuw <= 0) by (nonlinear_arith)
                    requires
                        cuw * dd == ud * dw,
                        ud < 0,
                        dw >= 0,
                        dd > 0,
                ;
                assert(cuw == 0);
                assert(dw == 0) by (nonlinear_arith)
                    requires
                        cuw * dd == ud * dw,
                        cuw == 0,
                        ud < 0,
                ;
                assert(dv > 0) by (nonlinear_arith)
                    requires
                        cuv * dd == ud * dv,
                        cuv < 0,
                        ud < 0,
                        dv >= 0,
                        dd > 0,
                ;
                lemma_proj(dx, dy, wx, wy, vx, vy);
                assert((wx * vy - wy * vx) * dd == wd * dv) by {
                    assert(dx * wy - dy * wx == 0);
                }
                assert(wd <= 0);
                assert(wx * vy - wy * vx <= 0) by (nonlinear_arith)
                    requires
                        (wx * vy - wy * vx) * dd == wd * dv,
                        wd <= 0,
                        dv > 0,
                        dd > 0,
                ;
                assert(cvw >= 0) by (nonlinear_arith)
                    requires
                        cvw == vx * wy - vy * wx,
                        wx * vy - wy * vx <= 0,
                        cvw == 0 - (wx * vy - wy * vx),
                ;
                if cvw == 0 {
                    assert(wd * dv == 0) by (nonlinear_arith)
                        requires
                            (wx * vy - wy * vx) * dd == wd * dv,
                            wx * vy - wy * vx == 0,
                            dd > 0,
                    ;
                    assert(wd == 0) by (nonlinear_arith)
                        requires
                            wd * dv == 0,
                            dv > 0,
                    ;
                    assert(wx == 0 && wy == 0) by (nonlinear_arith)
                        requires
                            dx * wy - dy * wx == 0,
                            wx * dx + wy * dy == 0,
                            dx != 0 || dy != 0,
                    ;
                    assert(ww <= vv) by (nonlinear_arith)
                        requires
                            wx == 0 && wy == 0,
                            ww == wx * wx + wy * wy,
                            vv > 0,
                    ;
                }
            }
        }
    } else {
        // v beat u along a shared ray, being farther out: they are
        // parallel and point the same way, so v beats what u beats.
        assert(cuv == 0 && vv > uu);
        let uv = ux * vx + uy * vy;
        if uv <= 0 {
            // Antiparallel offsets would force both onto the boundary
            // line, on the one allowed side, where they would point the
            // same way after all: a contradiction.
            lemma_lagrange(ux, uy, vx, vy);
            assert(uv < 0) by (nonlinear_arith)
                requires
                    uv * uv + cuv * cuv == uu * vv,
                    cuv == 0,
                    uu > 0,
                    vv > 0,
                    uv <= 0,
                    uv == ux * vx + uy * vy,
                    (ux * vx + uy * vy) * (ux * vx + uy * vy) + (ux * vy - uy * vx) * (ux * vy - uy
                        * vx) == (ux * ux + uy * uy) * (vx * vx + vy * vy),
                    cuv == ux * vy - uy * vx,
                    uu == ux * ux + uy * uy,
                    vv == vx * vx + vy * vy,
            ;
            lemma_proj(ux, uy, dx, dy, vx, vy);
            assert(dv * uu == du * uv) by (nonlinear_arith)
                requires
                    (dx * vy - dy * vx) * (ux * ux + uy * uy) == (dx * ux + dy * uy) * (ux * vy - uy
                        * vx) - (ux * dy - uy * dx) * (vx * ux + vy * uy),
                    cuv == 0,
                    cuv == ux * vy - uy * vx,
                    dv == dx * vy - dy * vx,
                    du == dx * uy - dy * ux,
                    uu == ux * ux + uy * uy,
                    uv == ux * vx + uy * vy,
            ;
            assert(du == 0 && dv == 0) by (nonlinear_arith)
                requires
                    dv * uu == du * uv,
                    du >= 0,
                    dv >= 0,
                    uv < 0,
                    uu > 0,
            ;
            assert(ud != 0) by (nonlinear_arith)
                requires
                    dx * uy - dy * ux == 0,
                    ux != 0 || uy != 0,
                    dx != 0 || dy != 0,
                    ud == ux * dx + uy * dy,
            ;
            assert(vd != 0) by (nonlinear_arith)
                requires
                    dx * vy - dy * vx == 0,
                    vx != 0 || vy != 0,
                    dx != 0 || dy != 0,
                    vd == vx * dx + vy * dy,
            ;
            lemma_dot_split(dx, dy, ux, uy, vx, vy);
            assert(uv * dd == ud * vd) by (nonlinear_arith)
                requires
                    (ux * vx + uy * vy) * (dx * dx + dy * dy) == (ux * dx + uy * dy) * (vx * dx + vy
                        * dy) + (dx * uy - dy * ux) * (dx * vy - dy * vx),
                    du == 0,
                    dv == 0,
                    du == dx * uy - dy * ux,
                    dv == dx * vy - dy * vx,
                    uv == ux * vx + uy * vy,
                    dd == dx * dx + dy * dy,
                    ud == ux * dx + uy * dy,
                    vd == vx * dx + vy * dy,
            ;
            if ahead_banned {
                assert(ud < 0 && vd < 0);
                assert(false) by (nonlinear_arith)
                    requires
                        uv * dd == ud * vd,
                        ud < 0,
                        vd < 0,
                        uv < 0,
                        dd > 0,
                ;
            } else {
                assert(ud > 0 && vd > 0);
                assert(false) by (nonlinear_arith)
                    requires
                        uv * dd == ud * vd,
                        ud > 0,
                        vd > 0,
                        uv < 0,
                        dd > 0,
                ;
            }
        } else {
            lemma_proj(ux, uy, vx, vy, wx, wy);
            assert(cvw * uu == uv * cuw) by (nonlinear_arith)
                requires
                    (vx * wy - vy * wx) * (ux * ux + uy * uy) == (vx * ux + vy * uy) * (ux * wy - uy
                        * wx) - (ux * vy - uy * vx) * (wx * ux + wy * uy),
                    cuv == 0,
                    cuv == ux * vy - uy * vx,
                    cvw == vx * wy - vy * wx,
                    cuw == ux * wy - uy * wx,
                    uu == ux * ux + uy * uy,
                    uv == ux * vx + uy * vy,
                    uv == vx * ux + vy * uy,
            ;
            if cuw > 0 {
                assert(cvw > 0) by (nonlinear_arith)
                    requires
                        cvw * uu == uv * cuw,
                        uv > 0,
                        cuw > 0,
                        uu > 0,
                ;
            } else {
                assert(cuw == 0 && ww <= uu);
                assert(cvw == 0) by (nonlinear_arith)
                    requires
                        cvw * uu == uv * cuw,
                        cuw == 0,
                        uu > 0,
                ;
                assert(ww <= vv);
            }
        }
    }
}

} // verus!
