use soft_raster::color::Color;

#[test]
fn packs_channels_into_hex() {
    assert_eq!(Color::new(0x12, 0x34, 0x56).to_hex(), 0x123456);
    assert_eq!(Color::new(255, 255, 255).to_hex(), 0xFFFFFF);
    assert_eq!(Color::black().to_hex(), 0);
}

#[test]
fn unpacks_hex_into_channels() {
    assert_eq!(Color::from_hex(0x333355), Color::new(0x33, 0x33, 0x55));
    assert_eq!(Color::from_hex(0xFFDDDD).to_hex(), 0xFFDDDD);
}

#[test]
fn lerp_at_zero_and_one_gives_endpoints() {
    let a = Color::new(70, 130, 180);
    let b = Color::new(173, 216, 230);
    assert_eq!(a.lerp(&b, 0, 1000), a);
    assert_eq!(a.lerp(&b, 1000, 1000), b);
    assert_eq!(b.lerp(&a, 0, 7), b);
    assert_eq!(b.lerp(&a, 7, 7), a);
}

#[test]
fn lerp_halfway() {
    let a = Color::new(0, 100, 255);
    let b = Color::new(100, 0, 255);
    assert_eq!(a.lerp(&b, 1, 2), Color::new(50, 50, 255));
}

#[test]
fn lerp_moves_monotonically() {
    let a = Color::new(10, 200, 40);
    let b = Color::new(250, 20, 40);
    let mut prev = a;
    for t in 1..=16u32 {
        let c = a.lerp(&b, t, 16);
        assert!(c.r >= prev.r);
        assert!(c.g <= prev.g);
        assert_eq!(c.b, 40);
        prev = c;
    }
    assert_eq!(prev, b);
}

#[test]
fn scale_by_intensity() {
    let c = Color::new(200, 100, 50);
    assert_eq!(c.scale(128, 256), Color::new(100, 50, 25));
    assert_eq!(c.scale(256, 256), c);
    assert_eq!(c.scale(0, 256), Color::black());
    assert_eq!(c.scale(3, 1), Color::new(255, 255, 150));
}

#[test]
fn add_saturates() {
    let a = Color::new(200, 10, 0);
    let b = Color::new(100, 20, 0);
    assert_eq!(a.add(&b), Color::new(255, 30, 0));
}
