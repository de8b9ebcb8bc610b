use graphics_buffer::buffer::RenderBuffer;
use graphics_buffer::color::Color;
use graphics_buffer::color::UNIT;
use graphics_buffer::geom::sample_point;
use graphics_buffer::geom::tri_image_scale;
use graphics_buffer::geom::Triangle;
use graphics_buffer::geom::Vec2;
use graphics_buffer::geom::SCALE;

fn pt(x: i64, y: i64) -> Vec2 {
    Vec2 { x: x * SCALE, y: y * SCALE }
}

fn tri(a: Vec2, b: Vec2, c: Vec2) -> Triangle {
    Triangle { a, b, c }
}

const BLACK: Color = Color { r: 0, g: 0, b: 0, a: UNIT };
const WHITE: Color = Color { r: UNIT, g: UNIT, b: UNIT, a: UNIT };

/// A 2x2 checkerboard: white at (0,0) and (1,1), black elsewhere.
fn checkerboard() -> RenderBuffer {
    let bytes = vec![
        255, 255, 255, 255, // (0, 0) white
        0, 0, 0, 255, // (1, 0) black
        0, 0, 0, 255, // (0, 1) black
        255, 255, 255, 255, // (1, 1) white
    ];
    RenderBuffer::from_raw(2, 2, bytes).unwrap()
}

#[test]
fn checkerboard_scales_to_quadrants() {
    let tex = checkerboard();
    let mut buf = RenderBuffer::new(10, 10);
    buf.clear(BLACK);
    // A unit square of texture space over the whole destination.
    let pairs = vec![
        (tri(pt(0, 0), pt(10, 0), pt(0, 10)), tri(pt(0, 0), Vec2 { x: SCALE, y: 0 }, Vec2 {
            x: 0,
            y: SCALE,
        })),
        (tri(pt(10, 0), pt(10, 10), pt(0, 10)), tri(
            Vec2 { x: SCALE, y: 0 },
            Vec2 { x: SCALE, y: SCALE },
            Vec2 { x: 0, y: SCALE },
        )),
    ];
    buf.tri_list_uv(WHITE, &tex, &pairs);
    let white8 = Color::from_rgba8((255, 255, 255, 255));
    let black8 = Color::from_rgba8((0, 0, 0, 255));
    assert_eq!(buf.pixel(1, 1), white8);
    assert_eq!(buf.pixel(2, 2), white8);
    assert_eq!(buf.pixel(8, 1), black8);
    assert_eq!(buf.pixel(1, 8), black8);
    assert_eq!(buf.pixel(8, 8), white8);
}

#[test]
fn sample_coordinates_stay_inside_texture() {
    let dest = tri(pt(0, 0), pt(10, 0), pt(0, 10));
    let uv = tri(pt(0, 0), Vec2 { x: SCALE, y: 0 }, Vec2 { x: 0, y: SCALE });
    let scaled = tri_image_scale(&uv, 2, 2);
    for x in 0..10i64 {
        for y in 0..10i64 {
            let (sx, sy) = sample_point(pt(x, y), &dest, &scaled, 2, 2);
            assert!(sx < 2, "texel column {} out of range at ({}, {})", sx, x, y);
            assert!(sy < 2, "texel row {} out of range at ({}, {})", sy, x, y);
        }
    }
    // The far corner of the first triangle maps past the texture edge
    // and is held to the last texel.
    let (sx, sy) = sample_point(pt(8, 1), &dest, &scaled, 2, 2);
    assert_eq!((sx, sy), (1, 0));
}

#[test]
fn degenerate_triangle_is_skipped() {
    let tex = checkerboard();
    let mut buf = RenderBuffer::new(4, 4);
    buf.clear(BLACK);
    let p = pt(1, 1);
    let degenerate = tri(p, p, p);
    let uv = tri(pt(0, 0), Vec2 { x: SCALE, y: 0 }, Vec2 { x: 0, y: SCALE });
    buf.tri_list_uv(WHITE, &tex, &vec![(degenerate, uv)]);
    let black8 = Color::from_rgba8((0, 0, 0, 255));
    for x in 0..4 {
        for y in 0..4 {
            assert_eq!(buf.pixel(x, y), black8);
        }
    }
}

#[test]
fn first_covering_pair_wins() {
    let tex = checkerboard();
    let mut buf = RenderBuffer::new(4, 4);
    buf.clear(BLACK);
    let dest = tri(pt(0, 0), pt(4, 0), pt(0, 4));
    // The first pair samples the white texel (0, 0); the second, the
    // black texel (1, 1).  First in iteration order must win.
    let uv_white = tri(pt(0, 0), Vec2 { x: SCALE / 4, y: 0 }, Vec2 { x: 0, y: SCALE / 4 });
    let uv_black = tri(
        Vec2 { x: SCALE, y: SCALE },
        Vec2 { x: SCALE - SCALE / 4, y: SCALE },
        Vec2 { x: SCALE, y: SCALE - SCALE / 4 },
    );
    buf.tri_list_uv(WHITE, &tex, &vec![(dest, uv_white), (dest, uv_black)]);
    let white8 = Color::from_rgba8((255, 255, 255, 255));
    assert_eq!(buf.pixel(1, 1), white8);
}

#[test]
fn tint_multiplies_sampled_texel() {
    let tex = checkerboard();
    let mut buf = RenderBuffer::new(4, 4);
    buf.clear(BLACK);
    let dest = tri(pt(0, 0), pt(4, 0), pt(0, 4));
    // Sample the white texel everywhere, tint with opaque pure red.
    let uv = tri(pt(0, 0), Vec2 { x: SCALE / 4, y: 0 }, Vec2 { x: 0, y: SCALE / 4 });
    let red = Color { r: UNIT, g: 0, b: 0, a: UNIT };
    buf.tri_list_uv(red, &tex, &vec![(dest, uv)]);
    assert_eq!(buf.pixel(1, 1), Color::from_rgba8((255, 0, 0, 255)));
}
