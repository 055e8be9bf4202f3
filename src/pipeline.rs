use vstd::prelude::*;
use crate::color::{Color, scale_channel};
use crate::raster::{ScreenVertex, Fragment, vertex_ok, triangle_fragments, triangle, UNIT};

verus! {

/// The fragments of the first `n` triangles of a vertex list, where every
/// three consecutive vertices make one triangle.
pub open spec fn mesh_fragments(vs: Seq<ScreenVertex>, n: nat) -> Seq<Fragment>
    decreases n,
{
    if n == 0 {
        seq![]
    } else {
        let t = 3 * (n - 1);
        mesh_fragments(vs, (n - 1) as nat) + triangle_fragments(vs[t], vs[t + 1], vs[t + 2])
    }
}

/// Rasterizes a vertex list, three vertices to a triangle, in order; one or
/// two trailing vertices that make no triangle are left out.
pub fn rasterize_mesh(vs: &Vec<ScreenVertex>) -> (out: Vec<Fragment>)
    requires
        forall|i: int| 0 <= i < vs.len() ==> vertex_ok(#[trigger] vs[i]),
    ensures
        out@ == mesh_fragments(vs@, (vs.len() / 3) as nat),
        forall|i: int| 0 <= i < out.len() ==> 0 <= #[trigger] out[i].intensity <= UNIT,
{
    let n: usize = vs.len() / 3;
    let mut out: Vec<Fragment> = Vec::new();
    let mut t: usize = 0;
    while t < n
        invariant
            t <= n,
            n == vs.len() / 3,
            forall|i: int| 0 <= i < vs.len() ==> vertex_ok(#[trigger] vs[i]),
            out@ == mesh_fragments(vs@, t as nat),
            forall|i: int| 0 <= i < out.len() ==> 0 <= #[trigger] out[i].intensity <= UNIT,
        decreases n - t,
    {
        let b: usize = 3 * t;
        let mut frags = triangle(&vs[b], &vs[b + 1], &vs[b + 2]);
        out.append(&mut frags);
        t = t + 1;
    }
    out
}

/// A base color lit by a fragment's light intensity: each channel scaled by
/// `intensity / UNIT`.
pub fn lit(base: &Color, f: &Fragment) -> (c: Color)
    requires
        0 <= f.intensity <= UNIT,
    ensures
        c.r == scale_channel(base.r as int, f.intensity as int, UNIT as int),
        c.g == scale_channel(base.g as int, f.intensity as int, UNIT as int),
        c.b == scale_channel(base.b as int, f.intensity as int, UNIT as int),
{
    base.scale(f.intensity as u32, UNIT as u32)
}

/// The procedural look of one rendered object.
#[derive(Clone, Copy, Debug, PartialEq, Eq, Structural)]
pub enum Material {
    Neptune,
    Jupiter,
    SaturnWithRing,
    Urano,
    Venus,
    Mars,
    Earth,
    Mercury,
    Sun,
    Moon,
    Ring,
}

/// The material that a selector names, if it names one.
pub open spec fn material_spec(selector: u8) -> Option<Material> {
    if selector == 0 {
        Some(Material::Neptune)
    } else if selector == 1 {
        Some(Material::Jupiter)
    } else if selector == 2 {
        Some(Material::SaturnWithRing)
    } else if selector == 3 {
        Some(Material::Urano)
    } else if selector == 4 {
        Some(Material::Venus)
    } else if selector == 5 {
        Some(Material::Mars)
    } else if selector == 6 {
        Some(Material::Earth)
    } else if selector == 7 {
        Some(Material::Mercury)
    } else if selector == 8 {
        Some(Material::Sun)
    } else if selector == 9 {
        Some(Material::Moon)
    } else if selector == 10 {
        Some(Material::Ring)
    } else {
        None
    }
}

/// The material with the given selector; `None` for an unknown selector.
pub fn material_of(selector: u8) -> (m: Option<Material>)
    ensures
        m == material_spec(selector),
{
    match selector {
        0 => Some(Material::Neptune),
        1 => Some(Material::Jupiter),
        2 => Some(Material::SaturnWithRing),
        3 => Some(Material::Urano),
        4 => Some(Material::Venus),
        5 => Some(Material::Mars),
        6 => Some(Material::Earth),
        7 => Some(Material::Mercury),
        8 => Some(Material::Sun),
        9 => Some(Material::Moon),
        10 => Some(Material::Ring),
        _ => None,
    }
}

/// The material with the given selector, falling back to the default
/// material (Neptune) for an unknown selector.
pub fn material_or_default(selector: u8) -> (m: Material)
    ensures
        m == (match material_spec(selector) {
            Some(k) => k,
            None => Material::Neptune,
        }),
{
    match material_of(selector) {
        Some(k) => k,
        None => Material::Neptune,
    }
}

/// Which loaded mesh a draw pass uses.
#[derive(Clone, Copy, Debug, PartialEq, Eq, Structural)]
pub enum Mesh {
    Sphere,
    Ring,
}

/// How a draw pass places its mesh: as the central body, as a ring around
/// it turning with it, or as a moon on an orbit that the frame counter drives.
#[derive(Clone, Copy, Debug, PartialEq, Eq, Structural)]
pub enum Placement {
    Body,
    RingOfBody,
    MoonOfBody,
}

/// One draw call of a frame.
#[derive(Clone, Copy, Debug, PartialEq, Eq, Structural)]
pub struct DrawPass {
    pub mesh: Mesh,
    pub material: Material,
    pub placement: Placement,
}

/// The draw calls of one frame for a selector: a ringed planet is followed by
/// its ring, an Earth by its moon; any other selector draws one sphere.
pub open spec fn passes_spec(selector: u8) -> Seq<DrawPass> {
    if selector == 2 {
        seq![
            DrawPass { mesh: Mesh::Sphere, material: Material::SaturnWithRing, placement: Placement::Body },
            DrawPass { mesh: Mesh::Ring, material: Material::Ring, placement: Placement::RingOfBody },
        ]
    } else if selector == 6 {
        seq![
            DrawPass { mesh: Mesh::Sphere, material: Material::Earth, placement: Placement::Body },
            DrawPass { mesh: Mesh::Sphere, material: Material::Moon, placement: Placement::MoonOfBody },
        ]
    } else {
        seq![
            DrawPass {
                mesh: Mesh::Sphere,
                material: match material_spec(selector) {
                    Some(k) => k,
                    None => Material::Neptune,
                },
                placement: Placement::Body,
            },
        ]
    }
}

pub fn draw_passes(selector: u8) -> (r: Vec<DrawPass>)
    ensures
        r@ == passes_spec(selector),
{
    let mut r: Vec<DrawPass> = Vec::new();
    if selector == 2 {
        r.push(DrawPass { mesh: Mesh::Sphere, material: Material::SaturnWithRing, placement: Placement::Body });
        r.push(DrawPass { mesh: Mesh::Ring, material: Material::Ring, placement: Placement::RingOfBody });
    } else if selector == 6 {
        r.push(DrawPass { mesh: Mesh::Sphere, material: Material::Earth, placement: Placement::Body });
        r.push(DrawPass { mesh: Mesh::Sphere, material: Material::Moon, placement: Placement::MoonOfBody });
    } else {
        r.push(DrawPass { mesh: Mesh::Sphere, material: material_or_default(selector), placement: Placement::Body });
    }
    assert(r@ =~= passes_spec(selector));
    r
}

/// The selector after a frame's key poll. `digits[d]` tells whether the
/// number key `d` is down, for `d` in `0..=8`. Key 0 wins over the others;
/// else the highest number key down wins; with none down the selector stays.
pub fn next_selector(current: u8, digits: &Vec<bool>) -> (r: u8)
    requires
        digits.len() == 9,
    ensures
        digits[0] ==> r == 0,
        !digits[0] && (forall|d: int| 1 <= d <= 8 ==> !digits[d]) ==> r == current,
        !digits[0] && (exists|d: int| 1 <= d <= 8 && digits[d]) ==> 1 <= r <= 8 && digits[r as int]
            && forall|d: int| r < d <= 8 ==> !digits[d],
{
    let mut r = current;
    let mut d: usize = 1;
    while d <= 8
        invariant
            1 <= d <= 9,
            digits.len() == 9,
            (forall|e: int| 1 <= e < d ==> !digits[e]) ==> r == current,
            (exists|e: int| 1 <= e < d && digits[e]) ==> 1 <= r < d && digits[r as int]
                && forall|e: int| r < e < d ==> !digits[e],
        decreases 9 - d,
    {
        if digits[d] {
            r = d as u8;
        }
        d = d + 1;
    }
    if digits[0] {
        r = 0;
    }
    r
}

/// The camera moves that a frame's keys ask for, as signed step counts:
/// orbit about the up axis and about the right axis, pan along x and y, and
/// zoom towards the center.
#[derive(Clone, Copy, Debug, PartialEq, Eq, Structural)]
pub struct CameraSteps {
    pub yaw: i8,
    pub pitch: i8,
    pub pan_x: i8,
    pub pan_y: i8,
    pub zoom: i8,
}

pub open spec fn step(plus: bool, minus: bool) -> int {
    (if plus { 1int } else { 0int }) - (if minus { 1int } else { 0int })
}

fn step_exec(plus: bool, minus: bool) -> (r: i8)
    ensures
        r == step(plus, minus),
{
    (if plus { 1i8 } else { 0i8 }) - (if minus { 1i8 } else { 0i8 })
}

/// The camera steps for the keys that are down: left and right orbit about
/// the up axis, S and W about the right axis, D and A pan along x, Q and E
/// along y, and up and down zoom in and out. Opposite keys cancel.
pub fn camera_steps(left: bool, right: bool, w: bool, s: bool, a: bool, d: bool, q: bool, e: bool, up: bool, down: bool) -> (c: CameraSteps)
    ensures
        c.yaw == step(left, right),
        c.pitch == step(s, w),
        c.pan_x == step(d, a),
        c.pan_y == step(q, e),
        c.zoom == step(up, down),
{
    CameraSteps {
        yaw: step_exec(left, right),
        pitch: step_exec(s, w),
        pan_x: step_exec(d, a),
        pan_y: step_exec(q, e),
        zoom: step_exec(up, down),
    }
}

} // verus!
