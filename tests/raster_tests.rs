use soft_raster::color::Color;
use soft_raster::raster::{triangle, Fragment, ScreenVertex, Vec3i, UNIT};

fn v(x: i64, y: i64, depth: i64) -> ScreenVertex {
    ScreenVertex {
        x,
        y,
        depth,
        position: Vec3i { x: x * 4, y: y * 4, z: 0 },
        normal: Vec3i { x: 0, y: 0, z: UNIT },
        color: Color::new(10, 20, 30),
    }
}

fn pixels(frags: &[Fragment]) -> Vec<(u64, u64)> {
    frags.iter().map(|f| (f.x, f.y)).collect()
}

#[test]
fn collinear_triangle_is_empty() {
    assert!(triangle(&v(0, 0, 1), &v(64, 64, 1), &v(128, 128, 1)).is_empty());
    assert!(triangle(&v(0, 40, 1), &v(100, 40, 1), &v(300, 40, 1)).is_empty());
}

#[test]
fn coincident_vertices_are_empty() {
    assert!(triangle(&v(50, 50, 1), &v(50, 50, 1), &v(200, 10, 1)).is_empty());
    assert!(triangle(&v(7, 7, 1), &v(7, 7, 1), &v(7, 7, 1)).is_empty());
}

#[test]
fn small_triangle_exact_fragment() {
    let a = v(0, 0, 100);
    let b = v(32, 0, 200);
    let c = v(0, 32, 300);
    let frags = triangle(&a, &b, &c);
    assert_eq!(pixels(&frags), vec![(0, 0)]);
    assert_eq!(frags[0].depth, 175);
    assert_eq!(frags[0].intensity, UNIT);
    assert_eq!(frags[0].color, Color::new(10, 20, 30));
    assert_eq!(frags[0].position, Vec3i { x: 32, y: 32, z: 0 });
}

#[test]
fn winding_does_not_change_coverage() {
    let a = v(0, 0, 100);
    let b = v(32, 0, 200);
    let c = v(0, 32, 300);
    assert_eq!(triangle(&a, &b, &c), triangle(&a, &c, &b));
}

#[test]
fn shared_edge_fills_each_pixel_once() {
    let a = v(0, 32, 0);
    let b = v(32, 0, 0);
    let c = v(0, 0, 0);
    let d = v(32, 32, 0);
    let first = triangle(&a, &b, &c);
    let second = triangle(&b, &a, &d);
    assert_eq!(pixels(&first), vec![(0, 0)]);
    assert_eq!(pixels(&second), vec![(1, 0), (0, 1), (1, 1)]);
}

#[test]
fn square_split_on_diagonal_covers_every_pixel_once() {
    let corner0 = v(0, 0, 5);
    let corner1 = v(128, 0, 5);
    let corner2 = v(128, 128, 5);
    let corner3 = v(0, 128, 5);
    let mut all = pixels(&triangle(&corner0, &corner1, &corner2));
    let lower = pixels(&triangle(&corner0, &corner2, &corner3));
    let upper_count = all.len();
    assert!((28..=36).contains(&upper_count));
    all.extend(lower);
    all.sort();
    let mut expected = Vec::new();
    for x in 0..8u64 {
        for y in 0..8u64 {
            expected.push((x, y));
        }
    }
    assert_eq!(all, expected);
}

#[test]
fn fragments_come_in_row_major_order() {
    let frags = triangle(&v(0, 0, 0), &v(160, 8, 0), &v(40, 150, 0));
    let ps = pixels(&frags);
    assert!(!ps.is_empty());
    for w in ps.windows(2) {
        assert!((w[0].1, w[0].0) < (w[1].1, w[1].0));
    }
}

#[test]
fn negative_coordinates_are_clipped_at_zero() {
    let frags = triangle(&v(-64, -64, 0), &v(104, -64, 0), &v(-64, 104, 0));
    assert_eq!(pixels(&frags), vec![(0, 0), (1, 0), (0, 1)]);
}

#[test]
fn intensity_follows_normal_towards_light() {
    let mut a = v(0, 0, 0);
    let mut b = v(32, 0, 0);
    let mut c = v(0, 32, 0);
    for p in [&mut a, &mut b, &mut c] {
        p.normal = Vec3i { x: 0, y: 0, z: -UNIT };
    }
    assert_eq!(triangle(&a, &b, &c)[0].intensity, 0);
    for p in [&mut a, &mut b, &mut c] {
        p.normal = Vec3i { x: 0, y: 0, z: UNIT / 2 };
    }
    assert_eq!(triangle(&a, &b, &c)[0].intensity, UNIT / 2);
}
