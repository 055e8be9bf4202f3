use vstd::prelude::*;
use vstd::arithmetic::div_mod::{
    lemma_div_is_ordered,
    lemma_div_multiples_vanish,
    lemma_multiply_divide_lt,
    lemma_div_pos_is_pos,
    lemma_mod_pos_bound,
    lemma_fundamental_div_mod,
    lemma_fundamental_div_mod_converse,
};
use vstd::arithmetic::mul::lemma_mul_is_commutative;
use crate::color::Color;

verus! {

/// Screen coordinates are fixed point: this many units make one pixel.
pub const SUBPIXEL: i64 = 16;

/// Bound on the magnitude of a screen coordinate, in sub-pixel units.
pub const COORD_MAX: i64 = 16777216;

/// Bound on the magnitude of every interpolated attribute of a vertex.
pub const ATTR_MAX: i64 = 4294967296;

/// Fixed-point unit of normals and of light intensity: `UNIT` stands for 1.
pub const UNIT: i64 = 256;

/// The direction towards the light, in units of `UNIT`: straight at the viewer.
pub const LIGHT_X: i64 = 0;
pub const LIGHT_Y: i64 = 0;
pub const LIGHT_Z: i64 = 256;

/// A three-component vector of fixed-point integers.
#[derive(Clone, Copy, Debug, PartialEq, Eq, Structural)]
pub struct Vec3i {
    pub x: i64,
    pub y: i64,
    pub z: i64,
}

/// A vertex after transformation: its place on screen in sub-pixel units,
/// its depth, and the attributes that are interpolated across a triangle.
#[derive(Clone, Copy, Debug, PartialEq, Eq, Structural)]
pub struct ScreenVertex {
    pub x: i64,
    pub y: i64,
    pub depth: i64,
    pub position: Vec3i,
    pub normal: Vec3i,
    pub color: Color,
}

/// One covered pixel of a triangle, with its interpolated attributes.
#[derive(Clone, Copy, Debug, PartialEq, Eq, Structural)]
pub struct Fragment {
    pub x: u64,
    pub y: u64,
    pub depth: i64,
    pub position: Vec3i,
    pub normal: Vec3i,
    pub intensity: i64,
    pub color: Color,
}

pub open spec fn attr_ok(a: i64) -> bool {
    -ATTR_MAX <= a <= ATTR_MAX
}

pub open spec fn vec_ok(v: Vec3i) -> bool {
    attr_ok(v.x) && attr_ok(v.y) && attr_ok(v.z)
}

/// A vertex whose coordinates and attributes lie within the supported range.
pub open spec fn vertex_ok(v: ScreenVertex) -> bool {
    -COORD_MAX <= v.x <= COORD_MAX && -COORD_MAX <= v.y <= COORD_MAX && attr_ok(v.depth)
        && vec_ok(v.position) && vec_ok(v.normal)
}

/// The edge function: twice the signed area of the triangle `a`, `b`, `p`.
pub open spec fn edge(ax: int, ay: int, bx: int, by: int, px: int, py: int) -> int {
    (bx - ax) * (py - ay) - (by - ay) * (px - ax)
}

/// Twice the signed area of a triangle; zero exactly when it is degenerate.
pub open spec fn signed_area(a: ScreenVertex, b: ScreenVertex, c: ScreenVertex) -> int {
    edge(a.x as int, a.y as int, b.x as int, b.y as int, c.x as int, c.y as int)
}

/// The fill rule for points that lie exactly on an edge: of the two
/// directions of an edge, exactly one owns it, so a point on an edge shared by
/// two triangles is filled by exactly one of them.
pub open spec fn owns_edge(ax: int, ay: int, bx: int, by: int) -> bool {
    ay > by || (ay == by && ax < bx)
}

/// Whether the weight `w` of the edge from `a` to `b` lets a point in.
pub open spec fn accepts(w: int, ax: int, ay: int, bx: int, by: int) -> bool {
    w > 0 || (w == 0 && owns_edge(ax, ay, bx, by))
}

/// The sub-pixel coordinate of the center of pixel `p`.
pub open spec fn center(p: int) -> int {
    p * SUBPIXEL + SUBPIXEL / 2
}

/// The weight of the center of pixel (`px`, `py`) against the edge from `a` to `b`.
pub open spec fn weight(a: ScreenVertex, b: ScreenVertex, px: int, py: int) -> int {
    edge(a.x as int, a.y as int, b.x as int, b.y as int, center(px), center(py))
}

/// Whether the triangle, counter-clockwise in the edge function's sense,
/// covers the center of pixel (`px`, `py`).
pub open spec fn covers(v0: ScreenVertex, v1: ScreenVertex, v2: ScreenVertex, px: int, py: int) -> bool {
    accepts(weight(v1, v2, px, py), v1.x as int, v1.y as int, v2.x as int, v2.y as int)
        && accepts(weight(v2, v0, px, py), v2.x as int, v2.y as int, v0.x as int, v0.y as int)
        && accepts(weight(v0, v1, px, py), v0.x as int, v0.y as int, v1.x as int, v1.y as int)
}

/// Linear interpolation of three values by barycentric weights, rounded down.
pub open spec fn interp(w0: int, w1: int, w2: int, a0: int, a1: int, a2: int, area: int) -> int {
    (w0 * a0 + w1 * a1 + w2 * a2) / area
}

/// Light intensity for a normal: its dot product with the light direction,
/// in units of `UNIT`, clamped to `0..=UNIT`.
pub open spec fn intensity_of(n: Vec3i) -> int {
    let d = (n.x * LIGHT_X + n.y * LIGHT_Y + n.z * LIGHT_Z) / UNIT as int;
    if d < 0 {
        0
    } else if d > UNIT {
        UNIT as int
    } else {
        d
    }
}

pub open spec fn interp_at(v0: ScreenVertex, v1: ScreenVertex, v2: ScreenVertex, px: int, py: int, a0: int, a1: int, a2: int) -> int {
    interp(weight(v1, v2, px, py), weight(v2, v0, px, py), weight(v0, v1, px, py), a0, a1, a2, signed_area(v0, v1, v2))
}

pub open spec fn interp_vec(v0: ScreenVertex, v1: ScreenVertex, v2: ScreenVertex, px: int, py: int, a0: Vec3i, a1: Vec3i, a2: Vec3i) -> Vec3i {
    Vec3i {
        x: interp_at(v0, v1, v2, px, py, a0.x as int, a1.x as int, a2.x as int) as i64,
        y: interp_at(v0, v1, v2, px, py, a0.y as int, a1.y as int, a2.y as int) as i64,
        z: interp_at(v0, v1, v2, px, py, a0.z as int, a1.z as int, a2.z as int) as i64,
    }
}

/// The fragment of pixel (`px`, `py`) of a triangle: every attribute
/// interpolated linearly in screen space.
pub open spec fn fragment_at(v0: ScreenVertex, v1: ScreenVertex, v2: ScreenVertex, px: int, py: int) -> Fragment {
    let normal = interp_vec(v0, v1, v2, px, py, v0.normal, v1.normal, v2.normal);
    Fragment {
        x: px as u64,
        y: py as u64,
        depth: interp_at(v0, v1, v2, px, py, v0.depth as int, v1.depth as int, v2.depth as int) as i64,
        position: interp_vec(v0, v1, v2, px, py, v0.position, v1.position, v2.position),
        normal,
        intensity: intensity_of(normal) as i64,
        color: Color {
            r: interp_at(v0, v1, v2, px, py, v0.color.r as int, v1.color.r as int, v2.color.r as int) as u8,
            g: interp_at(v0, v1, v2, px, py, v0.color.g as int, v1.color.g as int, v2.color.g as int) as u8,
            b: interp_at(v0, v1, v2, px, py, v0.color.b as int, v1.color.b as int, v2.color.b as int) as u8,
        },
    }
}

pub open spec fn min3(a: int, b: int, c: int) -> int {
    if a <= b && a <= c {
        a
    } else if b <= c {
        b
    } else {
        c
    }
}

pub open spec fn max3(a: int, b: int, c: int) -> int {
    if a >= b && a >= c {
        a
    } else if b >= c {
        b
    } else {
        c
    }
}

/// The first pixel of a bounding box along one axis, clamped to zero.
pub open spec fn first_pixel(lo: int) -> int {
    if lo < 0 {
        0
    } else {
        lo / SUBPIXEL as int
    }
}

/// The number of pixels of a bounding box along one axis.
pub open spec fn span(lo: int, hi: int) -> int {
    if hi < 0 {
        0
    } else {
        hi / SUBPIXEL as int - first_pixel(lo) + 1
    }
}

pub open spec fn box_x0(v0: ScreenVertex, v1: ScreenVertex, v2: ScreenVertex) -> int {
    first_pixel(min3(v0.x as int, v1.x as int, v2.x as int))
}

pub open spec fn box_y0(v0: ScreenVertex, v1: ScreenVertex, v2: ScreenVertex) -> int {
    first_pixel(min3(v0.y as int, v1.y as int, v2.y as int))
}

pub open spec fn box_w(v0: ScreenVertex, v1: ScreenVertex, v2: ScreenVertex) -> int {
    span(min3(v0.x as int, v1.x as int, v2.x as int), max3(v0.x as int, v1.x as int, v2.x as int))
}

pub open spec fn box_h(v0: ScreenVertex, v1: ScreenVertex, v2: ScreenVertex) -> int {
    span(min3(v0.y as int, v1.y as int, v2.y as int), max3(v0.y as int, v1.y as int, v2.y as int))
}

/// The fragments of the first `k` pixels of the triangle's bounding box, in
/// row-major order, that the triangle covers.
pub open spec fn covered_upto(v0: ScreenVertex, v1: ScreenVertex, v2: ScreenVertex, k: nat) -> Seq<Fragment>
    decreases k,
{
    if k == 0 {
        seq![]
    } else {
        let prev = covered_upto(v0, v1, v2, (k - 1) as nat);
        let w = box_w(v0, v1, v2);
        let px = box_x0(v0, v1, v2) + (k - 1) % w;
        let py = box_y0(v0, v1, v2) + (k - 1) / w;
        if covers(v0, v1, v2, px, py) {
            prev.push(fragment_at(v0, v1, v2, px, py))
        } else {
            prev
        }
    }
}

/// The fragments of a triangle with positive signed area.
pub open spec fn oriented_fragments(v0: ScreenVertex, v1: ScreenVertex, v2: ScreenVertex) -> Seq<Fragment> {
    covered_upto(v0, v1, v2, (box_w(v0, v1, v2) * box_h(v0, v1, v2)) as nat)
}

/// The fragments of a triangle: none when it is degenerate; else those of the
/// pixels of its bounding box whose centers it covers, in row-major order.
/// A clockwise triangle is filled as its counter-clockwise twin.
pub open spec fn triangle_fragments(v0: ScreenVertex, v1: ScreenVertex, v2: ScreenVertex) -> Seq<Fragment> {
    let a = signed_area(v0, v1, v2);
    if a == 0 {
        seq![]
    } else if a > 0 {
        oriented_fragments(v0, v1, v2)
    } else {
        oriented_fragments(v0, v2, v1)
    }
}

proof fn lemma_interp_bounds(w0: int, w1: int, w2: int, a0: int, a1: int, a2: int, area: int)
    requires
        w0 >= 0,
        w1 >= 0,
        w2 >= 0,
        w0 + w1 + w2 == area,
        area > 0,
    ensures
        min3(a0, a1, a2) <= interp(w0, w1, w2, a0, a1, a2, area) <= max3(a0, a1, a2),
{
    let lo = min3(a0, a1, a2);
    let hi = max3(a0, a1, a2);
    let s = w0 * a0 + w1 * a1 + w2 * a2;
    assert(area * lo <= s <= area * hi) by (nonlinear_arith)
        requires
            w0 >= 0,
            w1 >= 0,
            w2 >= 0,
            w0 + w1 + w2 == area,
            lo <= a0 <= hi,
            lo <= a1 <= hi,
            lo <= a2 <= hi,
            s == w0 * a0 + w1 * a1 + w2 * a2,
    ;
    lemma_div_is_ordered(area * lo, s, area);
    lemma_div_is_ordered(s, area * hi, area);
    lemma_div_multiples_vanish(lo, area);
    lemma_div_multiples_vanish(hi, area);
}

proof fn lemma_weights_sum(v0: ScreenVertex, v1: ScreenVertex, v2: ScreenVertex, px: int, py: int)
    ensures
        weight(v1, v2, px, py) + weight(v2, v0, px, py) + weight(v0, v1, px, py) == signed_area(v0, v1, v2),
{
    lemma_edges_sum(v0.x as int, v0.y as int, v1.x as int, v1.y as int, v2.x as int, v2.y as int, center(px), center(py));
}

proof fn lemma_edges_sum(x0: int, y0: int, x1: int, y1: int, x2: int, y2: int, cx: int, cy: int)
    ensures
        edge(x1, y1, x2, y2, cx, cy) + edge(x2, y2, x0, y0, cx, cy) + edge(x0, y0, x1, y1, cx, cy)
            == edge(x0, y0, x1, y1, x2, y2),
{
    lemma_expand(x2, x1, cy, y1);
    lemma_expand(y2, y1, cx, x1);
    lemma_expand(x0, x2, cy, y2);
    lemma_expand(y0, y2, cx, x2);
    lemma_expand(x1, x0, cy, y0);
    lemma_expand(y1, y0, cx, x0);
    lemma_expand(x1, x0, y2, y0);
    lemma_expand(y1, y0, x2, x0);
    lemma_mul_is_commutative(x1, y1);
    lemma_mul_is_commutative(x2, y2);
    lemma_mul_is_commutative(x0, y0);
    lemma_mul_is_commutative(x1, y2);
    lemma_mul_is_commutative(x2, y1);
    lemma_mul_is_commutative(x0, y1);
    lemma_mul_is_commutative(x1, y0);
    lemma_mul_is_commutative(x0, y2);
    lemma_mul_is_commutative(x2, y0);
    lemma_mul_is_commutative(cx, y0);
    lemma_mul_is_commutative(cx, y1);
    lemma_mul_is_commutative(cx, y2);
    lemma_mul_is_commutative(cy, x0);
    lemma_mul_is_commutative(cy, x1);
    lemma_mul_is_commutative(cy, x2);
}

proof fn lemma_expand(a: int, b: int, c: int, d: int)
    ensures
        (a - b) * (c - d) == a * c - a * d - b * c + b * d,
{
    assert((a - b) * (c - d) == a * c - a * d - b * c + b * d) by (nonlinear_arith);
}

fn min3_exec(a: i64, b: i64, c: i64) -> (r: i64)
    ensures
        r == min3(a as int, b as int, c as int),
{
    if a <= b && a <= c {
        a
    } else if b <= c {
        b
    } else {
        c
    }
}

fn max3_exec(a: i64, b: i64, c: i64) -> (r: i64)
    ensures
        r == max3(a as int, b as int, c as int),
{
    if a >= b && a >= c {
        a
    } else if b >= c {
        b
    } else {
        c
    }
}

/// The edge function on coordinates of at most 2^26 in magnitude.
fn edge_exec(ax: i128, ay: i128, bx: i128, by: i128, px: i128, py: i128) -> (r: i128)
    requires
        -0x400_0000 <= ax <= 0x400_0000,
        -0x400_0000 <= ay <= 0x400_0000,
        -0x400_0000 <= bx <= 0x400_0000,
        -0x400_0000 <= by <= 0x400_0000,
        -0x400_0000 <= px <= 0x400_0000,
        -0x400_0000 <= py <= 0x400_0000,
    ensures
        r == edge(ax as int, ay as int, bx as int, by as int, px as int, py as int),
        -0x80_0000_0000_0000 <= r <= 0x80_0000_0000_0000,
{
    let (dx, dy, ex, ey) = (bx - ax, py - ay, by - ay, px - ax);
    assert(-0x40_0000_0000_0000 <= dx * dy <= 0x40_0000_0000_0000) by (nonlinear_arith)
        requires
            -0x800_0000 <= dx <= 0x800_0000,
            -0x800_0000 <= dy <= 0x800_0000,
    ;
    assert(-0x40_0000_0000_0000 <= ex * ey <= 0x40_0000_0000_0000) by (nonlinear_arith)
        requires
            -0x800_0000 <= ex <= 0x800_0000,
            -0x800_0000 <= ey <= 0x800_0000,
    ;
    dx * dy - ex * ey
}

/// Interpolation of three attributes by nonnegative weights that sum to `area`.
fn interp_exec(w0: i128, w1: i128, w2: i128, a0: i64, a1: i64, a2: i64, area: i128) -> (r: i64)
    requires
        w0 >= 0,
        w1 >= 0,
        w2 >= 0,
        w0 + w1 + w2 == area,
        0 < area <= 0x100_0000_0000_0000,
        attr_ok(a0),
        attr_ok(a1),
        attr_ok(a2),
    ensures
        r == interp(w0 as int, w1 as int, w2 as int, a0 as int, a1 as int, a2 as int, area as int),
        min3(a0 as int, a1 as int, a2 as int) <= r <= max3(a0 as int, a1 as int, a2 as int),
{
    proof {
        lemma_interp_bounds(w0 as int, w1 as int, w2 as int, a0 as int, a1 as int, a2 as int, area as int);
    }
    let (b0, b1, b2) = (a0 as i128, a1 as i128, a2 as i128);
    assert(-0x1_0000_0000_0000_0000_0000_0000 <= w0 * b0 <= 0x1_0000_0000_0000_0000_0000_0000) by (nonlinear_arith)
        requires
            0 <= w0 <= 0x100_0000_0000_0000,
            -0x1_0000_0000 <= b0 <= 0x1_0000_0000,
    ;
    assert(-0x1_0000_0000_0000_0000_0000_0000 <= w1 * b1 <= 0x1_0000_0000_0000_0000_0000_0000) by (nonlinear_arith)
        requires
            0 <= w1 <= 0x100_0000_0000_0000,
            -0x1_0000_0000 <= b1 <= 0x1_0000_0000,
    ;
    assert(-0x1_0000_0000_0000_0000_0000_0000 <= w2 * b2 <= 0x1_0000_0000_0000_0000_0000_0000) by (nonlinear_arith)
        requires
            0 <= w2 <= 0x100_0000_0000_0000,
            -0x1_0000_0000 <= b2 <= 0x1_0000_0000,
    ;
    let s: i128 = w0 * b0 + w1 * b1 + w2 * b2;
    match s.checked_div_euclid(area) {
        Some(q) => q as i64,
        None => 0,
    }
}

fn accepts_exec(w: i128, ax: i64, ay: i64, bx: i64, by: i64) -> (r: bool)
    ensures
        r == accepts(w as int, ax as int, ay as int, bx as int, by as int),
{
    w > 0 || (w == 0 && (ay > by || (ay == by && ax < bx)))
}

fn interp_vec_exec(w0: i128, w1: i128, w2: i128, a0: Vec3i, a1: Vec3i, a2: Vec3i, area: i128) -> (r: Vec3i)
    requires
        w0 >= 0,
        w1 >= 0,
        w2 >= 0,
        w0 + w1 + w2 == area,
        0 < area <= 0x100_0000_0000_0000,
        vec_ok(a0),
        vec_ok(a1),
        vec_ok(a2),
    ensures
        r.x == interp(w0 as int, w1 as int, w2 as int, a0.x as int, a1.x as int, a2.x as int, area as int),
        r.y == interp(w0 as int, w1 as int, w2 as int, a0.y as int, a1.y as int, a2.y as int, area as int),
        r.z == interp(w0 as int, w1 as int, w2 as int, a0.z as int, a1.z as int, a2.z as int, area as int),
        vec_ok(r),
{
    Vec3i {
        x: interp_exec(w0, w1, w2, a0.x, a1.x, a2.x, area),
        y: interp_exec(w0, w1, w2, a0.y, a1.y, a2.y, area),
        z: interp_exec(w0, w1, w2, a0.z, a1.z, a2.z, area),
    }
}

fn intensity_exec(n: Vec3i) -> (r: i64)
    requires
        vec_ok(n),
    ensures
        r == intensity_of(n),
        0 <= r <= UNIT,
{
    let (nx, ny, nz) = (n.x as i128, n.y as i128, n.z as i128);
    assert(-0x100_0000_0000 <= nx * 0 + ny * 0 + nz * 256 <= 0x100_0000_0000) by (nonlinear_arith)
        requires
            -0x1_0000_0000 <= nx <= 0x1_0000_0000,
            -0x1_0000_0000 <= ny <= 0x1_0000_0000,
            -0x1_0000_0000 <= nz <= 0x1_0000_0000,
    ;
    let d: i128 = nx * (LIGHT_X as i128) + ny * (LIGHT_Y as i128) + nz * (LIGHT_Z as i128);
    match d.checked_div_euclid(UNIT as i128) {
        Some(q) => {
            if q < 0 {
                0
            } else if q > UNIT as i128 {
                UNIT
            } else {
                q as i64
            }
        },
        None => 0,
    }
}

fn fragment_exec(v0: &ScreenVertex, v1: &ScreenVertex, v2: &ScreenVertex, px: i64, py: i64, w0: i128, w1: i128, w2: i128, area: i128) -> (f: Fragment)
    requires
        vertex_ok(*v0),
        vertex_ok(*v1),
        vertex_ok(*v2),
        px >= 0,
        py >= 0,
        w0 == weight(*v1, *v2, px as int, py as int),
        w1 == weight(*v2, *v0, px as int, py as int),
        w2 == weight(*v0, *v1, px as int, py as int),
        w0 >= 0,
        w1 >= 0,
        w2 >= 0,
        area == signed_area(*v0, *v1, *v2),
        0 < area <= 0x100_0000_0000_0000,
    ensures
        f == fragment_at(*v0, *v1, *v2, px as int, py as int),
        0 <= f.intensity <= UNIT,
{
    proof {
        lemma_weights_sum(*v0, *v1, *v2, px as int, py as int);
    }
    let normal = interp_vec_exec(w0, w1, w2, v0.normal, v1.normal, v2.normal, area);
    let r = interp_exec(w0, w1, w2, v0.color.r as i64, v1.color.r as i64, v2.color.r as i64, area);
    let g = interp_exec(w0, w1, w2, v0.color.g as i64, v1.color.g as i64, v2.color.g as i64, area);
    let b = interp_exec(w0, w1, w2, v0.color.b as i64, v1.color.b as i64, v2.color.b as i64, area);
    Fragment {
        x: px as u64,
        y: py as u64,
        depth: interp_exec(w0, w1, w2, v0.depth, v1.depth, v2.depth, area),
        position: interp_vec_exec(w0, w1, w2, v0.position, v1.position, v2.position, area),
        normal,
        intensity: intensity_exec(normal),
        color: Color { r: r as u8, g: g as u8, b: b as u8 },
    }
}

/// Fills a triangle of positive signed area.
fn fill(v0: &ScreenVertex, v1: &ScreenVertex, v2: &ScreenVertex) -> (out: Vec<Fragment>)
    requires
        vertex_ok(*v0),
        vertex_ok(*v1),
        vertex_ok(*v2),
        signed_area(*v0, *v1, *v2) > 0,
    ensures
        out@ == oriented_fragments(*v0, *v1, *v2),
        forall|i: int| 0 <= i < out.len() ==> 0 <= #[trigger] out[i].intensity <= UNIT,
{
    let mut out: Vec<Fragment> = Vec::new();
    let minx = min3_exec(v0.x, v1.x, v2.x);
    let maxx = max3_exec(v0.x, v1.x, v2.x);
    let miny = min3_exec(v0.y, v1.y, v2.y);
    let maxy = max3_exec(v0.y, v1.y, v2.y);
    if maxx < 0 || maxy < 0 {
        return out;
    }
    let x0: i64 = if minx < 0 { 0 } else { minx / SUBPIXEL };
    let y0: i64 = if miny < 0 { 0 } else { miny / SUBPIXEL };
    proof {
        lemma_div_is_ordered(minx as int, maxx as int, SUBPIXEL as int);
        lemma_div_is_ordered(miny as int, maxy as int, SUBPIXEL as int);
        lemma_div_pos_is_pos(maxx as int, SUBPIXEL as int);
        lemma_div_pos_is_pos(maxy as int, SUBPIXEL as int);
        lemma_div_is_ordered(maxx as int, COORD_MAX as int, SUBPIXEL as int);
        lemma_div_is_ordered(maxy as int, COORD_MAX as int, SUBPIXEL as int);
    }
    let w: u64 = (maxx / SUBPIXEL - x0 + 1) as u64;
    let h: u64 = (maxy / SUBPIXEL - y0 + 1) as u64;
    assert(w * h <= 0x200_0000_0000) by (nonlinear_arith)
        requires
            1 <= w <= 0x10_0001,
            1 <= h <= 0x10_0001,
    ;
    let count: u64 = w * h;
    let ax = v0.x as i128;
    let ay = v0.y as i128;
    let bx = v1.x as i128;
    let by = v1.y as i128;
    let cx = v2.x as i128;
    let cy = v2.y as i128;
    let area = edge_exec(ax, ay, bx, by, cx, cy);
    let mut k: u64 = 0;
    while k < count
        invariant
            k <= count,
            count == w * h,
            w as int == box_w(*v0, *v1, *v2),
            h as int == box_h(*v0, *v1, *v2),
            x0 as int == box_x0(*v0, *v1, *v2),
            y0 as int == box_y0(*v0, *v1, *v2),
            1 <= w <= 0x10_0001,
            1 <= h <= 0x10_0001,
            0 <= x0 <= 0x10_0000,
            0 <= y0 <= 0x10_0000,
            x0 + w - 1 <= 0x10_0000,
            y0 + h - 1 <= 0x10_0000,
            area == signed_area(*v0, *v1, *v2),
            0 < area <= 0x80_0000_0000_0000,
            vertex_ok(*v0),
            vertex_ok(*v1),
            vertex_ok(*v2),
            ax == v0.x && ay == v0.y && bx == v1.x && by == v1.y && cx == v2.x && cy == v2.y,
            out@ == covered_upto(*v0, *v1, *v2, k as nat),
            forall|i: int| 0 <= i < out.len() ==> 0 <= #[trigger] out[i].intensity <= UNIT,
        decreases count - k,
    {
        proof {
            lemma_mod_pos_bound(k as int, w as int);
            lemma_multiply_divide_lt(k as int, w as int, h as int);
            lemma_div_pos_is_pos(k as int, w as int);
        }
        let px: i64 = x0 + (k % w) as i64;
        let py: i64 = y0 + (k / w) as i64;
        assert(0 <= px <= 0x10_0000 && 0 <= py <= 0x10_0000);
        let sub: i128 = SUBPIXEL as i128;
        assert(sub == 16);
        let qx: i128 = (px as i128) * sub + sub / 2;
        let qy: i128 = (py as i128) * sub + sub / 2;
        let w0 = edge_exec(bx, by, cx, cy, qx, qy);
        let w1 = edge_exec(cx, cy, ax, ay, qx, qy);
        let w2 = edge_exec(ax, ay, bx, by, qx, qy);
        if accepts_exec(w0, v1.x, v1.y, v2.x, v2.y) && accepts_exec(w1, v2.x, v2.y, v0.x, v0.y)
            && accepts_exec(w2, v0.x, v0.y, v1.x, v1.y)
        {
            let f = fragment_exec(v0, v1, v2, px, py, w0, w1, w2, area);
            out.push(f);
        }
        k = k + 1;
    }
    out
}

/// Rasterizes one triangle: the fragments of the pixels it covers, in
/// row-major order, with depth, position, normal, intensity and color
/// interpolated linearly. A degenerate triangle yields none.
pub fn triangle(v0: &ScreenVertex, v1: &ScreenVertex, v2: &ScreenVertex) -> (out: Vec<Fragment>)
    requires
        vertex_ok(*v0),
        vertex_ok(*v1),
        vertex_ok(*v2),
    ensures
        out@ == triangle_fragments(*v0, *v1, *v2),
        forall|i: int| 0 <= i < out.len() ==> 0 <= #[trigger] out[i].intensity <= UNIT,
{
    let area = edge_exec(v0.x as i128, v0.y as i128, v1.x as i128, v1.y as i128, v2.x as i128, v2.y as i128);
    if area == 0 {
        Vec::new()
    } else if area > 0 {
        fill(v0, v1, v2)
    } else {
        fill(v0, v2, v1)
    }
}

/// A degenerate triangle, whose vertices are collinear or coincide, yields no
/// fragments.
pub proof fn lemma_degenerate_is_empty(v0: ScreenVertex, v1: ScreenVertex, v2: ScreenVertex)
    requires
        signed_area(v0, v1, v2) == 0,
    ensures
        triangle_fragments(v0, v1, v2).len() == 0,
{
}

/// Every fragment of a counter-clockwise triangle lies on a pixel that the
/// triangle covers.
pub proof fn lemma_fragments_covered(v0: ScreenVertex, v1: ScreenVertex, v2: ScreenVertex, k: nat)
    requires
        vertex_ok(v0),
        vertex_ok(v1),
        vertex_ok(v2),
        k <= box_w(v0, v1, v2) * box_h(v0, v1, v2),
    ensures
        forall|i: int|
            0 <= i < covered_upto(v0, v1, v2, k).len() ==> {
                let f = #[trigger] covered_upto(v0, v1, v2, k)[i];
                covers(v0, v1, v2, f.x as int, f.y as int)
            },
    decreases k,
{
    if k > 0 {
        lemma_fragments_covered(v0, v1, v2, (k - 1) as nat);
        let w = box_w(v0, v1, v2);
        let h = box_h(v0, v1, v2);
        assert(w > 0) by {
            if w <= 0 {
                assert(w * h <= 0) by (nonlinear_arith)
                    requires
                        w <= 0,
                        h >= 0,
                ;
            }
        }
        lemma_mod_pos_bound((k - 1) as int, w);
        lemma_div_pos_is_pos((k - 1) as int, w);
        lemma_multiply_divide_lt((k - 1) as int, w, h);
        lemma_box_bounds(v0.x as int, v1.x as int, v2.x as int);
        lemma_box_bounds(v0.y as int, v1.y as int, v2.y as int);
        let px = box_x0(v0, v1, v2) + (k - 1) % w;
        let py = box_y0(v0, v1, v2) + (k - 1) / w;
        assert(0 <= px <= 0x10_0001);
        assert(0 <= py <= 0x10_0001);
        let prev = covered_upto(v0, v1, v2, (k - 1) as nat);
        if covers(v0, v1, v2, px, py) {
            let f = fragment_at(v0, v1, v2, px, py);
            assert(f.x as int == px && f.y as int == py);
            assert(covered_upto(v0, v1, v2, k) == prev.push(f));
        }
    }
}

proof fn lemma_box_bounds(a: int, b: int, c: int)
    requires
        -COORD_MAX <= a <= COORD_MAX,
        -COORD_MAX <= b <= COORD_MAX,
        -COORD_MAX <= c <= COORD_MAX,
    ensures
        0 <= first_pixel(min3(a, b, c)),
        0 <= span(min3(a, b, c), max3(a, b, c)),
        first_pixel(min3(a, b, c)) + span(min3(a, b, c), max3(a, b, c)) <= 0x10_0001,
{
    let lo = min3(a, b, c);
    let hi = max3(a, b, c);
    if lo >= 0 {
        lemma_div_pos_is_pos(lo, SUBPIXEL as int);
        lemma_div_is_ordered(lo, hi, SUBPIXEL as int);
    }
    if hi >= 0 {
        lemma_div_pos_is_pos(hi, SUBPIXEL as int);
        lemma_div_is_ordered(hi, COORD_MAX as int, SUBPIXEL as int);
    }
}

proof fn lemma_edge_flip(a: ScreenVertex, b: ScreenVertex, px: int, py: int)
    ensures
        weight(a, b, px, py) == -weight(b, a, px, py),
{
    let (cx, cy) = (center(px), center(py));
    let (ax, ay, bx, by) = (a.x as int, a.y as int, b.x as int, b.y as int);
    lemma_expand(bx, ax, cy, ay);
    lemma_expand(by, ay, cx, ax);
    lemma_expand(ax, bx, cy, by);
    lemma_expand(ay, by, cx, bx);
    lemma_mul_is_commutative(ax, by);
    lemma_mul_is_commutative(bx, ay);
    lemma_mul_is_commutative(ax, ay);
    lemma_mul_is_commutative(bx, by);
}

/// The fill rule on a shared edge: two counter-clockwise triangles on either
/// side of the edge between `a` and `b` never both cover a pixel, and a pixel
/// center that lies on that edge, strictly inside the other edges of both,
/// is covered by exactly one of them: no double fill and no gap.
pub proof fn lemma_shared_edge_cover(a: ScreenVertex, b: ScreenVertex, c: ScreenVertex, d: ScreenVertex, px: int, py: int)
    requires
        signed_area(a, b, c) > 0,
        signed_area(b, a, d) > 0,
    ensures
        !(covers(a, b, c, px, py) && covers(b, a, d, px, py)),
        weight(a, b, px, py) == 0 && weight(b, c, px, py) > 0 && weight(c, a, px, py) > 0
            && weight(a, d, px, py) > 0 && weight(d, b, px, py) > 0
            ==> covers(a, b, c, px, py) != covers(b, a, d, px, py),
{
    lemma_edge_flip(a, b, px, py);
    if a.x == b.x && a.y == b.y {
        assert(signed_area(a, b, c) == 0) by (nonlinear_arith)
            requires
                a.x == b.x,
                a.y == b.y,
                signed_area(a, b, c) == (b.x - a.x) * (c.y - a.y) - (b.y - a.y) * (c.x - a.x),
        ;
    }
}

/// Two counter-clockwise triangles on either side of a shared edge never
/// yield fragments on the same pixel.
pub proof fn lemma_shared_edge_no_overlap(a: ScreenVertex, b: ScreenVertex, c: ScreenVertex, d: ScreenVertex)
    requires
        vertex_ok(a),
        vertex_ok(b),
        vertex_ok(c),
        vertex_ok(d),
        signed_area(a, b, c) > 0,
        signed_area(b, a, d) > 0,
    ensures
        forall|i: int, j: int|
            0 <= i < triangle_fragments(a, b, c).len() && 0 <= j < triangle_fragments(b, a, d).len()
                ==> (#[trigger] triangle_fragments(a, b, c)[i]).x != (#[trigger] triangle_fragments(b, a, d)[j]).x
                || triangle_fragments(a, b, c)[i].y != triangle_fragments(b, a, d)[j].y,
{
    lemma_fragments_covered(a, b, c, (box_w(a, b, c) * box_h(a, b, c)) as nat);
    lemma_fragments_covered(b, a, d, (box_w(b, a, d) * box_h(b, a, d)) as nat);
    let s = triangle_fragments(a, b, c);
    let t = triangle_fragments(b, a, d);
    assert forall|i: int, j: int| 0 <= i < s.len() && 0 <= j < t.len() implies
        (#[trigger] s[i]).x != (#[trigger] t[j]).x || s[i].y != t[j].y by {
        lemma_shared_edge_cover(a, b, c, d, s[i].x as int, s[i].y as int);
    }
}

proof fn lemma_edge_relative(xa: int, ya: int, xb: int, yb: int, cx: int, cy: int)
    ensures
        edge(xa, ya, xb, yb, cx, cy) == (xa - cx) * (yb - cy) - (xb - cx) * (ya - cy),
{
    assert((xb - xa) * (cy - ya) - (yb - ya) * (cx - xa) == (xa - cx) * (yb - cy) - (xb - cx) * (ya - cy))
        by (nonlinear_arith);
}

/// The weighted offsets of the vertices from a point cancel out: the point
/// is the weighted mean of the vertices.
proof fn lemma_weighted_offsets(x0: int, y0: int, x1: int, y1: int, x2: int, y2: int, cx: int, cy: int)
    ensures
        edge(x1, y1, x2, y2, cx, cy) * (x0 - cx) + edge(x2, y2, x0, y0, cx, cy) * (x1 - cx)
            + edge(x0, y0, x1, y1, cx, cy) * (x2 - cx) == 0,
{
    lemma_edge_relative(x1, y1, x2, y2, cx, cy);
    lemma_edge_relative(x2, y2, x0, y0, cx, cy);
    lemma_edge_relative(x0, y0, x1, y1, cx, cy);
    let (a0, a1, a2, b0, b1, b2) = (x0 - cx, x1 - cx, x2 - cx, y0 - cy, y1 - cy, y2 - cy);
    assert((a1 * b2 - a2 * b1) * a0 + (a2 * b0 - a0 * b2) * a1 + (a0 * b1 - a1 * b0) * a2 == 0)
        by (nonlinear_arith);
}

/// A point with nonnegative weights summing to a positive area lies between
/// the least and the greatest of the vertices' coordinates.
proof fn lemma_between(w0: int, w1: int, w2: int, a0: int, a1: int, a2: int, c: int)
    requires
        w0 >= 0,
        w1 >= 0,
        w2 >= 0,
        w0 + w1 + w2 > 0,
        w0 * (a0 - c) + w1 * (a1 - c) + w2 * (a2 - c) == 0,
    ensures
        min3(a0, a1, a2) <= c <= max3(a0, a1, a2),
{
    if c < min3(a0, a1, a2) {
        assert(w0 * (a0 - c) + w1 * (a1 - c) + w2 * (a2 - c) > 0) by (nonlinear_arith)
            requires
                w0 >= 0,
                w1 >= 0,
                w2 >= 0,
                w0 + w1 + w2 > 0,
                a0 - c > 0,
                a1 - c > 0,
                a2 - c > 0,
        ;
    }
    if c > max3(a0, a1, a2) {
        assert(w0 * (a0 - c) + w1 * (a1 - c) + w2 * (a2 - c) < 0) by (nonlinear_arith)
            requires
                w0 >= 0,
                w1 >= 0,
                w2 >= 0,
                w0 + w1 + w2 > 0,
                a0 - c < 0,
                a1 - c < 0,
                a2 - c < 0,
        ;
    }
}

/// A pixel whose center lies within `lo..=hi` lies in the bounding box's
/// span along that axis.
proof fn lemma_pixel_in_span(p: int, lo: int, hi: int)
    requires
        p >= 0,
        lo <= center(p) <= hi,
    ensures
        first_pixel(lo) <= p < first_pixel(lo) + span(lo, hi),
{
    assert(hi >= 0);
    if lo >= 0 {
        lemma_fundamental_div_mod(lo, SUBPIXEL as int);
        lemma_mod_pos_bound(lo, SUBPIXEL as int);
    }
    lemma_fundamental_div_mod(hi, SUBPIXEL as int);
    lemma_mod_pos_bound(hi, SUBPIXEL as int);
}

/// A shorter run of the bounding box is a prefix of a longer one.
proof fn lemma_covered_prefix(v0: ScreenVertex, v1: ScreenVertex, v2: ScreenVertex, m: nat, n: nat)
    requires
        m <= n,
    ensures
        covered_upto(v0, v1, v2, m).len() <= covered_upto(v0, v1, v2, n).len(),
        forall|i: int|
            0 <= i < covered_upto(v0, v1, v2, m).len() ==> #[trigger] covered_upto(v0, v1, v2, n)[i]
                == covered_upto(v0, v1, v2, m)[i],
    decreases n,
{
    if m < n {
        lemma_covered_prefix(v0, v1, v2, m, (n - 1) as nat);
    }
}

/// Every pixel at nonnegative coordinates whose center a counter-clockwise
/// triangle covers yields its fragment: the fill leaves no gaps.
pub proof fn lemma_covered_pixel_emitted(v0: ScreenVertex, v1: ScreenVertex, v2: ScreenVertex, px: int, py: int)
    requires
        vertex_ok(v0),
        vertex_ok(v1),
        vertex_ok(v2),
        signed_area(v0, v1, v2) > 0,
        px >= 0,
        py >= 0,
        covers(v0, v1, v2, px, py),
    ensures
        exists|i: int|
            0 <= i < oriented_fragments(v0, v1, v2).len() && #[trigger] oriented_fragments(v0, v1, v2)[i]
                == fragment_at(v0, v1, v2, px, py),
{
    let (x0, y0, x1, y1, x2, y2) = (v0.x as int, v0.y as int, v1.x as int, v1.y as int, v2.x as int, v2.y as int);
    let (cx, cy) = (center(px), center(py));
    let (w0, w1, w2) = (weight(v1, v2, px, py), weight(v2, v0, px, py), weight(v0, v1, px, py));
    lemma_weights_sum(v0, v1, v2, px, py);
    lemma_weighted_offsets(x0, y0, x1, y1, x2, y2, cx, cy);
    lemma_weighted_offsets(y0, x0, y1, x1, y2, x2, cy, cx);
    lemma_edge_flip_coords(x1, y1, x2, y2, cx, cy);
    lemma_edge_flip_coords(x2, y2, x0, y0, cx, cy);
    lemma_edge_flip_coords(x0, y0, x1, y1, cx, cy);
    lemma_between(w0, w1, w2, x0, x1, x2, cx);
    let (e0, e1, e2) = (edge(y1, x1, y2, x2, cy, cx), edge(y2, x2, y0, x0, cy, cx), edge(y0, x0, y1, x1, cy, cx));
    assert(w0 * (y0 - cy) + w1 * (y1 - cy) + w2 * (y2 - cy) == 0) by (nonlinear_arith)
        requires
            w0 == -e0,
            w1 == -e1,
            w2 == -e2,
            e0 * (y0 - cy) + e1 * (y1 - cy) + e2 * (y2 - cy) == 0,
    ;
    lemma_between(w0, w1, w2, y0, y1, y2, cy);
    let lox = min3(x0, x1, x2);
    let hix = max3(x0, x1, x2);
    let loy = min3(y0, y1, y2);
    let hiy = max3(y0, y1, y2);
    lemma_pixel_in_span(px, lox, hix);
    lemma_pixel_in_span(py, loy, hiy);
    let bx = box_x0(v0, v1, v2);
    let by = box_y0(v0, v1, v2);
    let w = box_w(v0, v1, v2);
    let h = box_h(v0, v1, v2);
    let k = (py - by) * w + (px - bx);
    assert(0 <= k < w * h) by (nonlinear_arith)
        requires
            0 <= px - bx < w,
            0 <= py - by < h,
            k == (py - by) * w + (px - bx),
    ;
    lemma_fundamental_div_mod_converse(k, w, py - by, px - bx);
    lemma_covered_prefix(v0, v1, v2, (k + 1) as nat, (w * h) as nat);
    let s = covered_upto(v0, v1, v2, (k + 1) as nat);
    assert(s.last() == fragment_at(v0, v1, v2, px, py));
    assert(oriented_fragments(v0, v1, v2)[s.len() - 1] == fragment_at(v0, v1, v2, px, py));
}

proof fn lemma_edge_flip_coords(xa: int, ya: int, xb: int, yb: int, cx: int, cy: int)
    ensures
        edge(xa, ya, xb, yb, cx, cy) == -edge(ya, xa, yb, xb, cy, cx),
{
    assert((xb - xa) * (cy - ya) - (yb - ya) * (cx - xa) == -((yb - ya) * (cx - xa) - (xb - xa) * (cy - ya)))
        by (nonlinear_arith);
}

} // verus!
