use graphics_buffer::color::layer;
use graphics_buffer::color::multiply;
use graphics_buffer::color::Color;
use graphics_buffer::color::STEP;
use graphics_buffer::color::UNIT;

fn c(r: u16, g: u16, b: u16, a: u16) -> Color {
    Color { r, g, b, a }
}

#[test]
fn layer_opaque_replaces_destination() {
    let over = c(1000, 2000, 3000, UNIT);
    let under = c(40000, 50000, 60000, 12345);
    assert_eq!(layer(over, under), over);
}

#[test]
fn layer_opaque_replaces_for_many_destinations() {
    let over = c(65535, 0, 0, UNIT);
    for v in [0u16, 1, 257, 32768, 65535] {
        let under = c(v, v, v, v);
        assert_eq!(layer(over, under), over);
    }
}

#[test]
fn layer_transparent_keeps_destination() {
    let over = c(1000, 2000, 3000, 0);
    let under = c(40000, 50000, 60000, 12345);
    assert_eq!(layer(over, under), under);
}

#[test]
fn layer_alpha_quadrature_exact_value() {
    // isqrt(32768^2 + 32768^2) = 46340.
    let over = c(0, 0, 0, 32768);
    let under = c(0, 0, 0, 32768);
    assert_eq!(layer(over, under).a, 46340);
}

#[test]
fn layer_alpha_clamps_to_one() {
    let over = c(0, 0, 0, 60000);
    let under = c(0, 0, 0, 60000);
    assert_eq!(layer(over, under).a, UNIT);
}

#[test]
fn quantize_round_trip_within_one_step() {
    for v in [0u16, 1, 128, 256, 257, 300, 32767, 32768, 65000, 65535] {
        let orig = c(v, v, v, v);
        let back = Color::from_rgba8(orig.to_rgba8());
        for (a, b) in [
            (back.r, orig.r),
            (back.g, orig.g),
            (back.b, orig.b),
            (back.a, orig.a),
        ] {
            let diff = (a as i32 - b as i32).abs();
            assert!(diff <= STEP as i32, "diff {} for value {}", diff, v);
        }
    }
}

#[test]
fn quantize_is_exact_on_8bit_values() {
    let q = (12u8, 34u8, 56u8, 78u8);
    assert_eq!(Color::from_rgba8(q).to_rgba8(), q);
    assert_eq!(Color::from_rgba8((255, 255, 255, 255)), c(UNIT, UNIT, UNIT, UNIT));
}

#[test]
fn multiply_by_white_is_identity() {
    let white = c(UNIT, UNIT, UNIT, UNIT);
    let x = c(123, 456, 789, 10111);
    assert_eq!(multiply(white, x), x);
    assert_eq!(multiply(x, white), x);
}

#[test]
fn multiply_exact_values() {
    let half = c(32768, 32768, 32768, 32768);
    // round(32768 * 32768 / 65535) = 16384.
    assert_eq!(multiply(half, half), c(16384, 16384, 16384, 16384));
    let black = c(0, 0, 0, 0);
    assert_eq!(multiply(half, black), black);
}
