use soft_raster::color::Color;
use soft_raster::framebuffer::{Framebuffer, FAR};
use soft_raster::pipeline::{
    camera_steps, draw_passes, lit, material_of, material_or_default, next_selector, rasterize_mesh,
    DrawPass, Material, Mesh, Placement,
};
use soft_raster::raster::{triangle, ScreenVertex, Vec3i, SUBPIXEL, UNIT};

fn v(x: i64, y: i64) -> ScreenVertex {
    ScreenVertex {
        x,
        y,
        depth: 1000,
        position: Vec3i { x: 0, y: 0, z: 0 },
        normal: Vec3i { x: 0, y: 0, z: UNIT },
        color: Color::new(255, 255, 255),
    }
}

#[test]
fn mesh_drops_trailing_vertices() {
    let a = v(0, 0);
    let b = v(64, 0);
    let c = v(0, 64);
    let mesh = vec![a, b, c, a, b];
    assert_eq!(rasterize_mesh(&mesh), triangle(&a, &b, &c));
    let two = vec![a, b];
    assert!(rasterize_mesh(&two).is_empty());
}

#[test]
fn mesh_concatenates_triangles_in_order() {
    let a = v(0, 0);
    let b = v(64, 0);
    let c = v(0, 64);
    let d = v(200, 200);
    let e = v(260, 200);
    let f = v(200, 260);
    let mut expected = triangle(&a, &b, &c);
    expected.extend(triangle(&d, &e, &f));
    assert_eq!(rasterize_mesh(&vec![a, b, c, d, e, f, a]), expected);
}

#[test]
fn selectors_map_to_materials() {
    assert_eq!(material_of(0), Some(Material::Neptune));
    assert_eq!(material_of(1), Some(Material::Jupiter));
    assert_eq!(material_of(6), Some(Material::Earth));
    assert_eq!(material_of(10), Some(Material::Ring));
    assert_eq!(material_of(11), None);
}

#[test]
fn unknown_selector_falls_back_to_default() {
    assert_eq!(material_or_default(42), Material::Neptune);
    assert_eq!(material_or_default(8), Material::Sun);
}

#[test]
fn ringed_planet_draws_ring_after_body() {
    assert_eq!(
        draw_passes(2),
        vec![
            DrawPass { mesh: Mesh::Sphere, material: Material::SaturnWithRing, placement: Placement::Body },
            DrawPass { mesh: Mesh::Ring, material: Material::Ring, placement: Placement::RingOfBody },
        ]
    );
}

#[test]
fn earth_draws_moon_after_body() {
    assert_eq!(
        draw_passes(6),
        vec![
            DrawPass { mesh: Mesh::Sphere, material: Material::Earth, placement: Placement::Body },
            DrawPass { mesh: Mesh::Sphere, material: Material::Moon, placement: Placement::MoonOfBody },
        ]
    );
    assert_eq!(
        draw_passes(5),
        vec![DrawPass { mesh: Mesh::Sphere, material: Material::Mars, placement: Placement::Body }]
    );
}

#[test]
fn number_keys_pick_the_selector() {
    let mut keys = vec![false; 9];
    assert_eq!(next_selector(3, &keys), 3);
    keys[4] = true;
    keys[7] = true;
    assert_eq!(next_selector(3, &keys), 7);
    keys[0] = true;
    assert_eq!(next_selector(3, &keys), 0);
}

#[test]
fn opposite_camera_keys_cancel() {
    let s = camera_steps(true, true, false, true, true, false, true, false, false, true);
    assert_eq!((s.yaw, s.pitch, s.pan_x, s.pan_y, s.zoom), (0, 1, -1, 1, -1));
}

#[test]
fn end_to_end_square_facing_camera() {
    // A square face 8 pixels wide at pixels 4..12, facing the camera
    // (normal along the light), drawn as two triangles.
    let s = SUBPIXEL;
    let corner0 = v(4 * s, 4 * s);
    let corner1 = v(12 * s, 4 * s);
    let corner2 = v(12 * s, 12 * s);
    let corner3 = v(4 * s, 12 * s);
    let mesh = vec![corner0, corner1, corner2, corner0, corner2, corner3];
    let frags = rasterize_mesh(&mesh);
    assert_eq!(frags.len(), 64);
    let base = Color::new(189, 219, 208);
    let colors: Vec<Color> = frags.iter().map(|f| lit(&base, f)).collect();
    for (f, c) in frags.iter().zip(colors.iter()) {
        assert_eq!(f.intensity, UNIT);
        assert_eq!(*c, base);
        assert!((4..12).contains(&f.x) && (4..12).contains(&f.y));
    }
    let mut fb = Framebuffer::new(16, 16);
    fb.set_background_color(0x333355);
    fb.clear();
    fb.draw_fragments(&frags, &colors);
    for y in 0..16usize {
        for x in 0..16usize {
            let inside = (4..12).contains(&x) && (4..12).contains(&y);
            let expected = if inside { base.to_hex() } else { 0x333355 };
            assert_eq!(fb.buffer[y * 16 + x], expected);
            assert_eq!(fb.zbuffer[y * 16 + x] == FAR, !inside);
        }
    }
}

#[test]
fn lit_halves_color_at_half_intensity() {
    let mut f = triangle(&v(0, 0), &v(32, 0), &v(0, 32))[0];
    f.intensity = UNIT / 2;
    assert_eq!(lit(&Color::new(210, 80, 0), &f), Color::new(105, 40, 0));
}
